pub mod delayn;
pub mod delayms;
pub mod delay_n;
pub mod line;
