//! The input buffers that the graph hands to a node, keyed by the id of the
//! node that produced them.
use vstd::prelude::*;

verus! {

/// Copies a buffer of samples.
pub fn copy_samples(src: &Vec<u32>) -> (dst: Vec<u32>)
    ensures
        dst@ == src@,
{
    let dst = src.clone();
    assert(dst@ =~= src@);
    dst
}

/// The output of one upstream node: its buffers (one per channel) and its id.
pub struct Input {
    pub buffers: Vec<Vec<u32>>,
    pub node_id: usize,
}

/// The samples of a list of buffers, channel by channel.
pub open spec fn buffers_view(b: Seq<Vec<u32>>) -> Seq<Seq<u32>> {
    b.map_values(|v: Vec<u32>| v@)
}

impl View for Input {
    type V = (usize, Seq<Seq<u32>>);

    open spec fn view(&self) -> (usize, Seq<Seq<u32>>) {
        (self.node_id, buffers_view(self.buffers@))
    }
}

impl Input {
    /// An input that holds a copy of `slice` and comes from node `node_id`.
    pub fn new(slice: &[Vec<u32>], node_id: usize) -> (r: Input)
        ensures
            r@ == (node_id, buffers_view(slice@)),
            r.node_id == node_id,
    {
        let mut buffers: Vec<Vec<u32>> = Vec::new();
        let mut i: usize = 0;
        while i < slice.len()
            invariant
                i <= slice@.len(),
                buffers@.len() == i,
                forall|j: int| 0 <= j < i ==> #[trigger] buffers@[j]@ == slice@[j]@,
            decreases slice@.len() - i,
        {
            buffers.push(copy_samples(&slice[i]));
            i = i + 1;
        }
        let r = Input { buffers, node_id };
        assert(buffers_view(r.buffers@) =~= buffers_view(slice@));
        r
    }

    /// The buffers of the upstream node, one per channel.
    pub fn buffers(&self) -> (b: &[Vec<u32>])
        ensures
            buffers_view(b@) == self@.1,
    {
        self.buffers.as_slice()
    }
}

/// The storage of an input map: a `hashbrown::HashMap` from node id to
/// input, which Verus does not read.
#[verifier::external_body]
pub struct InputTable {
    map: hashbrown::HashMap<usize, Input>,
}

/// What an input table holds: for each key, the view of the input stored there.
pub uninterp spec fn input_entries(m: InputTable) -> Map<usize, (usize, Seq<Seq<u32>>)>;

/// The views of a list of inputs.
pub open spec fn input_views(s: Seq<Input>) -> Seq<(usize, Seq<Seq<u32>>)> {
    s.map_values(|v: Input| v@)
}

/// The entries that a list of inputs gives when each is stored under its
/// node id, a later input replacing an earlier one with the same id.
pub open spec fn entries_of(inputs: Seq<(usize, Seq<Seq<u32>>)>) -> Map<usize, (usize, Seq<Seq<u32>>)>
    decreases inputs.len(),
{
    if inputs.len() == 0 {
        Map::empty()
    } else {
        let last = inputs.last();
        entries_of(inputs.drop_last()).insert(last.0, last)
    }
}

/// The entries of a list of inputs are finitely many.
pub proof fn lemma_entries_of_finite(inputs: Seq<(usize, Seq<Seq<u32>>)>)
    ensures
        entries_of(inputs).dom().finite(),
    decreases inputs.len(),
{
    if inputs.len() > 0 {
        lemma_entries_of_finite(inputs.drop_last());
    }
}

/// `hashbrown::HashMap::new`: an empty map.
#[verifier::external_body]
fn table_new() -> (r: InputTable)
    ensures
        input_entries(r).dom().is_empty(),
{
    InputTable { map: hashbrown::HashMap::new() }
}

/// `hashbrown::HashMap::insert`: stores `v` under `k`, replacing any entry
/// there; the replaced value is dropped.
#[verifier::external_body]
fn table_insert(m: &mut InputTable, k: usize, v: Input)
    ensures
        input_entries(*final(m)) == input_entries(*old(m)).insert(k, v@),
{
    m.map.insert(k, v);
}

/// `hashbrown::HashMap::len`: the number of entries.
#[verifier::external_body]
fn table_len(m: &InputTable) -> (n: usize)
    ensures
        n == input_entries(*m).dom().len(),
{
    m.map.len()
}

/// `hashbrown::HashMap::get`: the entry stored under `k`, if any.
#[verifier::external_body]
fn table_get(m: &InputTable, k: usize) -> (r: Option<&Input>)
    ensures
        match r {
            Some(v) => input_entries(*m).dom().contains(k) && v@ == input_entries(*m)[k],
            None => !input_entries(*m).dom().contains(k),
        },
{
    m.map.get(&k)
}

/// `hashbrown::HashMap::values` followed by `next`: some entry of the map,
/// or `None` when it is empty. Which entry comes first depends on the
/// hasher's seed and is left open.
#[verifier::external_body]
fn table_first_value(m: &InputTable) -> (r: Option<&Input>)
    ensures
        r is None <==> input_entries(*m).dom().is_empty(),
        r matches Some(v) ==> exists|k: usize|
            #![trigger input_entries(*m)[k]]
            input_entries(*m).dom().contains(k) && input_entries(*m)[k] == v@,
{
    m.map.values().next()
}

/// The inputs of a node, keyed by the id of the node they come from.
pub struct InputMap {
    table: InputTable,
}

impl InputMap {
    #[verifier::type_invariant]
    spec fn finite(self) -> bool {
        input_entries(self.table).dom().finite()
    }

    /// The entries of the map: for each node id, the view of its input.
    pub closed spec fn entries(self) -> Map<usize, (usize, Seq<Seq<u32>>)> {
        input_entries(self.table)
    }

    /// Collects inputs into a map keyed by their node ids.
    pub fn from_inputs(inputs: Vec<Input>) -> (m: InputMap)
        ensures
            m.entries() == entries_of(input_views(inputs@)),
    {
        let ghost views = input_views(inputs@);
        let mut t = table_new();
        let mut rest = inputs;
        let ghost mut k: int = 0;
        proof {
            assert(input_entries(t) =~= entries_of(views.take(0)));
        }
        while rest.len() > 0
            invariant
                0 <= k <= views.len(),
                input_views(rest@) =~= views.skip(k),
                input_entries(t) == entries_of(views.take(k)),
            decreases rest@.len(),
        {
            let ghost before = rest@;
            proof {
                assert(input_views(before).len() == before.len());
                assert(k < views.len());
                assert(input_views(before)[0] == views[k]);
            }
            let x = rest.remove(0);
            proof {
                assert(x == before[0]);
                assert(x@ == views[k]);
                assert(views.take(k + 1).drop_last() =~= views.take(k));
                assert(rest@ =~= before.subrange(1, before.len() as int));
                assert forall|i: int| 0 <= i < rest@.len() implies
                    #[trigger] input_views(rest@)[i] == views.skip(k + 1)[i] by {
                    assert(rest@[i] == before[i + 1]);
                    assert(input_views(before)[i + 1] == views.skip(k)[i + 1]);
                }
                assert(input_views(rest@) =~= views.skip(k + 1));
            }
            table_insert(&mut t, x.node_id, x);
            proof {
                k = k + 1;
            }
        }
        proof {
            assert(views.take(k) =~= views);
            lemma_entries_of_finite(views);
        }
        InputMap { table: t }
    }

    /// The number of inputs.
    pub fn len(&self) -> (n: usize)
        ensures
            self.entries().dom().finite(),
            n == self.entries().dom().len(),
    {
        proof {
            use_type_invariant(self);
        }
        table_len(&self.table)
    }

    /// The input that came from node `k`, if any.
    pub fn get(&self, k: usize) -> (r: Option<&Input>)
        ensures
            match r {
                Some(v) => self.entries().dom().contains(k) && v@ == self.entries()[k],
                None => !self.entries().dom().contains(k),
            },
    {
        table_get(&self.table, k)
    }

    /// Some input of the map (which one is left open), or `None` when there
    /// is none.
    pub fn first_value(&self) -> (r: Option<&Input>)
        ensures
            self.entries().dom().finite(),
            r is None <==> self.entries().dom().len() == 0,
            r matches Some(v) ==> exists|k: usize|
                #![trigger self.entries()[k]]
                self.entries().dom().contains(k) && self.entries()[k] == v@,
    {
        proof {
            use_type_invariant(self);
        }
        let r = table_first_value(&self.table);
        proof {
            if self.entries().dom().len() == 0 {
                assert(self.entries().dom() =~= Set::<usize>::empty());
            }
        }
        r
    }
}

} // verus!
