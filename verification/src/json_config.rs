//! The hierarchy description: a JSON document whose `caches` array lists the levels,
//! top first, each with a name, a size, a line size, a kind and an optional
//! replacement policy.
use vstd::prelude::*;
use crate::cachemeta::{CacheMeta, kind_code_of, policy_code_of};

verus! {

/// The fields of one entry of the `caches` array, each as the JSON value gives it:
/// `None` where the field is missing or not of the expected type.
#[derive(Debug, Clone)]
pub struct CacheEntryFields {
    pub name: Option<String>,
    pub size: Option<u64>,
    pub line_size: Option<u64>,
    pub kind: Option<String>,
    /// The replacement policy is missing or `null`.
    pub policy_is_null: bool,
    pub policy: Option<String>,
}

/// A JSON document read as a hierarchy description.
#[derive(Debug, Clone)]
pub enum JsonHierarchy {
    /// The text is not JSON.
    Malformed,
    /// The document has no `caches` array.
    NoCacheList,
    /// The fields of each entry of the `caches` array, in order.
    Caches(Vec<CacheEntryFields>),
}

/// Why a hierarchy description was refused; the numbers are entry positions.
#[derive(Debug, Clone)]
pub enum ConfigError {
    Malformed,
    NoCacheList,
    Name(usize),
    Size(usize),
    LineSize(usize),
    Kind(usize),
    Policy(usize),
    /// The kind names no kind of cache; the name is kept.
    UnknownKind(usize, String),
}

/// What `serde_json` reads from the text, as a hierarchy description.
pub uninterp spec fn json_hierarchy(text: Seq<char>) -> JsonHierarchy;

/// Parses the text with `serde_json::from_str` into a `serde_json::Value` and reads,
/// from its `caches` array, the fields of each entry with `as_str`, `as_u64` and
/// `is_null`. Trusted to give the same result for the same text.
#[verifier::external_body]
fn parse_hierarchy_json(text: &str) -> (r: JsonHierarchy)
    ensures
        r == json_hierarchy(text@),
{
    let json: serde_json::Value = match serde_json::from_str(text) {
        Ok(v) => v,
        Err(_) => return JsonHierarchy::Malformed,
    };
    match json["caches"].as_array() {
        None => JsonHierarchy::NoCacheList,
        Some(caches) => JsonHierarchy::Caches(caches.iter().map(|c| CacheEntryFields {
            name: c["name"].as_str().map(String::from),
            size: c["size"].as_u64(),
            line_size: c["line_size"].as_u64(),
            kind: c["kind"].as_str().map(String::from),
            policy_is_null: c["replacement_policy"].is_null(),
            policy: c["replacement_policy"].as_str().map(String::from),
        }).collect()),
    }
}

/// The configuration that entry `i` describes, or the first of its fields that is
/// missing or of the wrong type, in the order name, size, line size, kind, policy;
/// a kind that names no kind of cache refuses the entry last. A missing or `null`
/// policy is round robin.
pub open spec fn entry_meta(e: CacheEntryFields, i: usize) -> Result<CacheMeta, ConfigError> {
    if e.name is None {
        Err(ConfigError::Name(i))
    } else if e.size is None {
        Err(ConfigError::Size(i))
    } else if e.line_size is None {
        Err(ConfigError::LineSize(i))
    } else if e.kind is None {
        Err(ConfigError::Kind(i))
    } else if !e.policy_is_null && e.policy is None {
        Err(ConfigError::Policy(i))
    } else {
        match kind_code_of(e.kind.unwrap()@) {
            None => Err(ConfigError::UnknownKind(i, e.kind.unwrap())),
            Some(k) => Ok(
                CacheMeta {
                    name: e.name.unwrap(),
                    size: e.size.unwrap(),
                    line_size: e.line_size.unwrap(),
                    kind: k,
                    rp: if e.policy_is_null {
                        0u8
                    } else {
                        policy_code_of(e.policy.unwrap()@)
                    },
                },
            ),
        }
    }
}

/// The configurations of all entries, in order, or the refusal of the first entry
/// that is refused.
pub open spec fn metas_of(entries: Seq<CacheEntryFields>) -> Result<Seq<CacheMeta>, ConfigError>
    decreases entries.len(),
{
    if entries.len() == 0 {
        Ok(Seq::empty())
    } else {
        match metas_of(entries.drop_last()) {
            Err(e) => Err(e),
            Ok(ms) => match entry_meta(entries.last(), (entries.len() - 1) as usize) {
                Err(e) => Err(e),
                Ok(m) => Ok(ms.push(m)),
            },
        }
    }
}

/// The configurations a hierarchy description gives, or why it is refused.
pub open spec fn config_of(h: JsonHierarchy) -> Result<Seq<CacheMeta>, ConfigError> {
    match h {
        JsonHierarchy::Malformed => Err(ConfigError::Malformed),
        JsonHierarchy::NoCacheList => Err(ConfigError::NoCacheList),
        JsonHierarchy::Caches(entries) => metas_of(entries@),
    }
}

/// Once a prefix of the entries is refused, so are all of them, for the same reason.
proof fn lemma_metas_prefix_err(entries: Seq<CacheEntryFields>, n: int)
    requires
        0 <= n <= entries.len(),
        metas_of(entries.take(n)) is Err,
    ensures
        metas_of(entries) == metas_of(entries.take(n)),
    decreases entries.len(),
{
    if n < entries.len() {
        assert(entries.drop_last().take(n) =~= entries.take(n));
        lemma_metas_prefix_err(entries.drop_last(), n);
    } else {
        assert(entries.take(n) =~= entries);
    }
}

/// The configuration of every entry, top level first, or the refusal of the first
/// entry that is refused.
pub fn metas_from_entries(entries: &Vec<CacheEntryFields>) -> (r: Result<Vec<CacheMeta>, ConfigError>)
    ensures
        match r {
            Ok(v) => metas_of(entries@) == Ok::<Seq<CacheMeta>, ConfigError>(v@),
            Err(e) => metas_of(entries@) == Err::<Seq<CacheMeta>, ConfigError>(e),
        },
{
    let mut out: Vec<CacheMeta> = Vec::new();
    let mut i: usize = 0;
    while i < entries.len()
        invariant
            i <= entries@.len(),
            metas_of(entries@.take(i as int)) == Ok::<Seq<CacheMeta>, ConfigError>(out@),
        decreases entries@.len() - i,
    {
        let ghost prefix = entries@.take(i + 1);
        proof {
            assert(prefix.drop_last() =~= entries@.take(i as int));
            assert(prefix.last() == entries@[i as int]);
        }
        let e = &entries[i];
        let checked: Result<CacheMeta, ConfigError> = match (&e.name, e.size, e.line_size, &e.kind) {
            (None, _, _, _) => Err(ConfigError::Name(i)),
            (Some(_), None, _, _) => Err(ConfigError::Size(i)),
            (Some(_), Some(_), None, _) => Err(ConfigError::LineSize(i)),
            (Some(_), Some(_), Some(_), None) => Err(ConfigError::Kind(i)),
            (Some(name), Some(size), Some(line_size), Some(kind)) => {
                if !e.policy_is_null && e.policy.is_none() {
                    Err(ConfigError::Policy(i))
                } else {
                    let policy: Option<&str> = if e.policy_is_null {
                        None
                    } else {
                        match &e.policy {
                            Some(p) => Some(p.as_str()),
                            None => None,
                        }
                    };
                    match CacheMeta::from_config(name.clone(), size, line_size, kind.as_str(), policy) {
                        Some(m) => Ok(m),
                        None => Err(ConfigError::UnknownKind(i, kind.clone())),
                    }
                }
            },
        };
        assert(checked == entry_meta(entries@[i as int], i));
        match checked {
            Ok(m) => {
                out.push(m);
            },
            Err(err) => {
                proof {
                    lemma_metas_prefix_err(entries@, i + 1);
                }
                return Err(err);
            },
        }
        i += 1;
    }
    assert(entries@.take(i as int) =~= entries@);
    Ok(out)
}

/// The configurations that a hierarchy description gives, top level first, or why it
/// is refused: text that is not JSON, no `caches` array, or the first entry with a
/// field missing or of the wrong type, or with a kind that names no kind of cache.
pub fn read_config(text: &str) -> (r: Result<Vec<CacheMeta>, ConfigError>)
    ensures
        match r {
            Ok(v) => config_of(json_hierarchy(text@)) == Ok::<Seq<CacheMeta>, ConfigError>(v@),
            Err(e) => config_of(json_hierarchy(text@)) == Err::<Seq<CacheMeta>, ConfigError>(e),
        },
{
    match parse_hierarchy_json(text) {
        JsonHierarchy::Malformed => Err(ConfigError::Malformed),
        JsonHierarchy::NoCacheList => Err(ConfigError::NoCacheList),
        JsonHierarchy::Caches(entries) => metas_from_entries(&entries),
    }
}

/// Every configuration of an accepted description comes from the entry at the same
/// position, with that entry's name, size and line size; its kind is 0, 1, 2, 3 or 4
/// exactly when the entry's kind is `direct`, `2way`, `4way`, `8way` or `full`; and its
/// replacement policy is 1 for `lru`, 2 for `lfu` and 0 for any other name or none,
/// whatever the kind.
pub proof fn lemma_metas_fields(entries: Seq<CacheEntryFields>)
    ensures
        metas_of(entries) matches Ok(ms) ==> {
            &&& ms.len() == entries.len()
            &&& forall|i: int| 0 <= i < entries.len() ==> {
                let e = #[trigger] entries[i];
                let m = ms[i];
                &&& e.name == Some(m.name)
                &&& e.size == Some(m.size)
                &&& e.line_size == Some(m.line_size)
                &&& e.kind is Some
                &&& (m.kind == 0 <==> e.kind.unwrap()@ == "direct"@)
                &&& (m.kind == 1 <==> e.kind.unwrap()@ == "2way"@)
                &&& (m.kind == 2 <==> e.kind.unwrap()@ == "4way"@)
                &&& (m.kind == 3 <==> e.kind.unwrap()@ == "8way"@)
                &&& (m.kind == 4 <==> e.kind.unwrap()@ == "full"@)
                &&& (e.policy_is_null ==> m.rp == 0)
                &&& (!e.policy_is_null ==> {
                    &&& e.policy is Some
                    &&& (e.policy.unwrap()@ == "lru"@ ==> m.rp == 1)
                    &&& (e.policy.unwrap()@ == "lfu"@ ==> m.rp == 2)
                    &&& (e.policy.unwrap()@ != "lru"@ && e.policy.unwrap()@ != "lfu"@ ==> m.rp == 0)
                })
            }
        },
    decreases entries.len(),
{
    reveal_strlit("direct");
    reveal_strlit("2way");
    reveal_strlit("4way");
    reveal_strlit("8way");
    reveal_strlit("full");
    reveal_strlit("lru");
    reveal_strlit("lfu");
    assert("2way"@.len() != "direct"@.len() && "4way"@.len() != "direct"@.len());
    assert("8way"@.len() != "direct"@.len() && "full"@.len() != "direct"@.len());
    assert("2way"@[0] != "4way"@[0] && "2way"@[0] != "8way"@[0] && "2way"@[0] != "full"@[0]);
    assert("4way"@[0] != "8way"@[0] && "4way"@[0] != "full"@[0] && "8way"@[0] != "full"@[0]);
    assert("lru"@[1] != "lfu"@[1]);
    if entries.len() > 0 {
        lemma_metas_fields(entries.drop_last());
        if metas_of(entries) is Ok {
            let ms = metas_of(entries).unwrap();
            let prev = metas_of(entries.drop_last()).unwrap();
            assert forall|i: int| 0 <= i < entries.len() implies {
                let e = #[trigger] entries[i];
                let m = ms[i];
                &&& e.name == Some(m.name)
                &&& e.size == Some(m.size)
                &&& e.line_size == Some(m.line_size)
                &&& e.kind is Some
                &&& (m.kind == 0 <==> e.kind.unwrap()@ == "direct"@)
                &&& (m.kind == 1 <==> e.kind.unwrap()@ == "2way"@)
                &&& (m.kind == 2 <==> e.kind.unwrap()@ == "4way"@)
                &&& (m.kind == 3 <==> e.kind.unwrap()@ == "8way"@)
                &&& (m.kind == 4 <==> e.kind.unwrap()@ == "full"@)
                &&& (e.policy_is_null ==> m.rp == 0)
                &&& (!e.policy_is_null ==> {
                    &&& e.policy is Some
                    &&& (e.policy.unwrap()@ == "lru"@ ==> m.rp == 1)
                    &&& (e.policy.unwrap()@ == "lfu"@ ==> m.rp == 2)
                    &&& (e.policy.unwrap()@ != "lru"@ && e.policy.unwrap()@ != "lfu"@ ==> m.rp == 0)
                })
            } by {
                if i < entries.len() - 1 {
                    assert(entries.drop_last()[i] == entries[i]);
                    assert(ms[i] == prev[i]);
                } else {
                    let e = entries[i];
                    assert(e == entries.last());
                    assert(entry_meta(e, i as usize) is Ok);
                    assert(ms[i] == entry_meta(e, i as usize).unwrap());
                    assert(kind_code_of(e.kind.unwrap()@) is Some);
                }
            }
        }
    }
}

} // verus!
