use vstd::prelude::*;

verus! {

/// The configuration of one cache level, as read from the hierarchy description.
///
/// `kind`: 0 direct-mapped, 1 two-way, 2 four-way, 3 eight-way, 4 fully associative.
/// `rp` (replacement policy): 0 round robin, 1 least recently used, 2 least frequently used.
#[derive(Debug, Clone)]
pub struct CacheMeta {
    pub name: String,
    pub size: u64,
    pub line_size: u64,
    pub kind: u8,
    pub rp: u8,
}

} // verus!

verus! {

/// The code of a cache kind named in a hierarchy description: `direct` 0, `2way` 1,
/// `4way` 2, `8way` 3, `full` 4; any other name names no kind.
pub open spec fn kind_code_of(kind: Seq<char>) -> Option<u8> {
    if kind == "direct"@ {
        Some(0)
    } else if kind == "2way"@ {
        Some(1)
    } else if kind == "4way"@ {
        Some(2)
    } else if kind == "8way"@ {
        Some(3)
    } else if kind == "full"@ {
        Some(4)
    } else {
        None
    }
}

/// The code of a replacement policy named in a hierarchy description: `lru` 1, `lfu`
/// 2, and round robin, 0, for any other name.
pub open spec fn policy_code_of(rp: Seq<char>) -> u8 {
    if rp == "lru"@ {
        1
    } else if rp == "lfu"@ {
        2
    } else {
        0
    }
}

/// The code of a cache kind, by its name.
pub fn kind_code(kind: &str) -> (r: Option<u8>)
    ensures
        r == kind_code_of(kind@),
{
    let k = kind.to_owned();
    if k == "direct".to_owned() {
        Some(0)
    } else if k == "2way".to_owned() {
        Some(1)
    } else if k == "4way".to_owned() {
        Some(2)
    } else if k == "8way".to_owned() {
        Some(3)
    } else if k == "full".to_owned() {
        Some(4)
    } else {
        None
    }
}

/// The code of a replacement policy, by its name.
pub fn policy_code(rp: &str) -> (r: u8)
    ensures
        r == policy_code_of(rp@),
{
    let p = rp.to_owned();
    if p == "lru".to_owned() {
        1
    } else if p == "lfu".to_owned() {
        2
    } else {
        0
    }
}

impl CacheMeta {
    /// The configuration of a level from the fields of its description. `None` where
    /// the kind names no kind of cache: such a description is refused, and no level is
    /// built from it. A level without a replacement policy uses round robin.
    pub fn from_config(name: String, size: u64, line_size: u64, kind: &str, rp: Option<&str>) -> (r: Option<CacheMeta>)
        ensures
            kind_code_of(kind@) is None ==> r is None,
            kind_code_of(kind@) matches Some(k) ==> r matches Some(m) && m.name == name && m.size == size
                && m.line_size == line_size && m.kind == k && m.rp == (match rp {
                Some(p) => policy_code_of(p@),
                None => 0u8,
            }),
    {
        let kind_u8 = match kind_code(kind) {
            Some(k) => k,
            None => {
                return None;
            },
        };
        let rp_u8 = match rp {
            Some(p) => policy_code(p),
            None => 0,
        };
        Some(CacheMeta { name, size, line_size, kind: kind_u8, rp: rp_u8 })
    }
}

} // verus!
