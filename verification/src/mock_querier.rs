use std::collections::hash_map::RandomState;
use std::collections::HashMap;
use vstd::prelude::*;
use vstd::std_specs::hash::{builds_valid_hashers, obeys_key_model};

verus! {

/// Questions the mock token querier answers.
#[derive(Clone, Debug, PartialEq, Eq)]
pub enum MockQueryMsg {
    TokenInfo {},
    Balance { address: String },
}

/// The pair table the given list builds: a repeated key keeps its last value.
pub open spec fn pairs_map_spec(s: Seq<(String, String)>) -> Map<String, String>
    decreases s.len(),
{
    if s.len() == 0 {
        Map::empty()
    } else {
        pairs_map_spec(s.drop_last()).insert(s.last().0, s.last().1)
    }
}

/// Builds the pair table; a repeated key keeps its last value.
pub fn pairs_to_map(pairs: &Vec<(String, String)>) -> (r: HashMap<String, String>)
    ensures
        obeys_key_model::<String>() && builds_valid_hashers::<RandomState>() ==> r@
            == pairs_map_spec(pairs@),
{
    let mut pairs_map: HashMap<String, String> = HashMap::new();
    let mut i: usize = 0;
    while i < pairs.len()
        invariant
            i <= pairs@.len(),
            obeys_key_model::<String>() && builds_valid_hashers::<RandomState>() ==> pairs_map@
                == pairs_map_spec(pairs@.take(i as int)),
        decreases pairs@.len() - i,
    {
        let p = &pairs[i];
        pairs_map.insert(p.0.clone(), p.1.clone());
        proof {
            assert(pairs@.take(i + 1 as int).drop_last() =~= pairs@.take(i as int));
            assert(pairs@.take(i + 1 as int).last() == pairs@[i as int]);
        }
        i = i + 1;
    }
    proof {
        assert(pairs@.take(pairs@.len() as int) =~= pairs@);
    }
    pairs_map
}

/// Mock lookup table of swap pairs for exercising a querier off-chain.
pub struct TerraswapFactoryQuerier {
    pub pairs: HashMap<String, String>,
}

impl TerraswapFactoryQuerier {
    /// A table holding the given pairs; a repeated key keeps its last value.
    pub fn new(pairs: &Vec<(String, String)>) -> (r: TerraswapFactoryQuerier)
        ensures
            obeys_key_model::<String>() && builds_valid_hashers::<RandomState>() ==> r.pairs@
                == pairs_map_spec(pairs@),
    {
        TerraswapFactoryQuerier { pairs: pairs_to_map(pairs) }
    }
}

} // verus!
