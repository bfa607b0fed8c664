pub mod balance;
