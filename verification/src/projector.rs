//! The store engine: lookups scoped to a working directory, mutations
//! scoped to that directory alone, and load/save through the JSON
//! document format.

use crate::config::Config;
use crate::config::Operation;
use crate::json::parse_store_text;
use crate::json::path_pairs_to_maps;
use crate::json::render_store_text;
use crate::json::store_map_of;
use crate::kvmap::KvMap;
use crate::paths::lemma_parent_shorter;
use crate::paths::parent_of;
use crate::paths::spec_parent;
use crate::store::StoreData;
use vstd::prelude::*;

verus! {

/// The value a lookup from `p` finds for `key`: the first hit walking
/// from `p` toward the root, so the most specific path wins.
pub open spec fn spec_lookup(
    m: Map<Seq<char>, Map<Seq<char>, Seq<char>>>,
    p: Seq<char>,
    key: Seq<char>,
) -> Option<Seq<char>>
    decreases p.len(),
        when true
        via spec_lookup_dec
{
    if m.contains_key(p) && m[p].contains_key(key) {
        Some(m[p][key])
    } else {
        match spec_parent(p) {
            None => None,
            Some(q) => spec_lookup(m, q, key),
        }
    }
}

#[via_fn]
proof fn spec_lookup_dec(m: Map<Seq<char>, Map<Seq<char>, Seq<char>>>, p: Seq<char>, key: Seq<char>) {
    lemma_parent_shorter(p);
}

/// Every visible pair from `p`: the overlay of all ancestor maps, from
/// the root down to `p`, so the most specific path wins on clashes.
pub open spec fn spec_merged(m: Map<Seq<char>, Map<Seq<char>, Seq<char>>>, p: Seq<char>) -> Map<
    Seq<char>,
    Seq<char>,
>
    decreases p.len(),
        when true
        via spec_merged_dec
{
    let own = if m.contains_key(p) {
        m[p]
    } else {
        Map::<Seq<char>, Seq<char>>::empty()
    };
    match spec_parent(p) {
        None => own,
        Some(q) => spec_merged(m, q).union_prefer_right(own),
    }
}

#[via_fn]
proof fn spec_merged_dec(m: Map<Seq<char>, Map<Seq<char>, Seq<char>>>, p: Seq<char>) {
    lemma_parent_shorter(p);
}

/// The store engine for one invocation.
pub struct Projector {
    pub config: Config,
    pub data: StoreData,
}

/// A projector over an empty store.
pub fn default_projector(config: &Config) -> (r: Projector)
    ensures
        r.wf(),
        r.config == *config,
        r.store_map() == Map::<Seq<char>, Map<Seq<char>, Seq<char>>>::empty(),
{
    Projector { config: copy_config(config), data: StoreData::new() }
}

fn copy_operation(o: &Operation) -> (r: Operation)
    ensures
        r == *o,
{
    match o {
        Operation::Print(opt) => match opt {
            None => Operation::Print(None),
            Some(t) => Operation::Print(Some(t.clone())),
        },
        Operation::Add(k, v) => Operation::Add(k.clone(), v.clone()),
        Operation::Remove(k) => Operation::Remove(k.clone()),
    }
}

fn copy_config(c: &Config) -> (r: Config)
    ensures
        r == *c,
{
    Config { operation: copy_operation(&c.operation), config: c.config.clone(), pwd: c.pwd.clone() }
}

impl Projector {
    /// Well-formed: the underlying store data is.
    pub open spec fn wf(&self) -> bool {
        self.data.wf()
    }

    /// The nested path-to-pairs mapping held in memory.
    pub open spec fn store_map(&self) -> Map<Seq<char>, Map<Seq<char>, Seq<char>>> {
        self.data.as_map()
    }

    /// Builds the engine from the store file's content, when there was
    /// one: a missing or ill-shaped document silently yields an empty
    /// store, never an error.
    pub fn load(config: Config, content: Option<&str>) -> (r: Projector)
        ensures
            r.wf(),
            r.config == config,
            r.store_map() == (match content {
                Some(c) => match parse_store_text(c@) {
                    Some(es) => store_map_of(es),
                    None => Map::<Seq<char>, Map<Seq<char>, Seq<char>>>::empty(),
                },
                None => Map::<Seq<char>, Map<Seq<char>, Seq<char>>>::empty(),
            }),
    {
        match content {
            Some(c) => {
                let chars = crate::strings::chars_of(c);
                match crate::json::parse_store(&chars) {
                    Some(sd) => Projector { config, data: sd },
                    None => Projector { config, data: StoreData::new() },
                }
            },
            None => Projector { config, data: StoreData::new() },
        }
    }

    /// The pretty-printed document for the current store.
    pub fn to_json(&self) -> (r: String)
        ensures
            r@ == render_store_text(self.data.seq()),
    {
        crate::json::render_store(&self.data)
    }

    fn lookup_from(&self, p: &String, key: &str) -> (r: Option<&String>)
        requires
            self.wf(),
        ensures
            match r {
                Some(v) => spec_lookup(self.store_map(), p@, key@) == Some(v@),
                None => spec_lookup(self.store_map(), p@, key@) is None,
            },
        decreases p@.len(),
    {
        match self.data.get_map(p) {
            Some(m) => match m.get(key) {
                Some(v) => {
                    return Some(v);
                },
                None => {},
            },
            None => {},
        }
        match parent_of(p.as_str()) {
            Some(q) => {
                proof {
                    lemma_parent_shorter(p@);
                }
                self.lookup_from(&q, key)
            },
            None => None,
        }
    }

    /// The value for `key` seen from the working directory: the nearest
    /// ancestor's value, or nothing when no ancestor holds the key.
    pub fn get_value(&self, key: &str) -> (r: Option<&String>)
        requires
            self.wf(),
        ensures
            match r {
                Some(v) => spec_lookup(self.store_map(), self.config.pwd@, key@) == Some(v@),
                None => spec_lookup(self.store_map(), self.config.pwd@, key@) is None,
            },
    {
        self.lookup_from(&self.config.pwd, key)
    }

    fn merged_from(&self, p: &String) -> (r: KvMap)
        requires
            self.wf(),
        ensures
            r.wf(),
            r.as_map() == spec_merged(self.store_map(), p@),
        decreases p@.len(),
    {
        let mut acc: KvMap = match parent_of(p.as_str()) {
            Some(q) => {
                proof {
                    lemma_parent_shorter(p@);
                }
                self.merged_from(&q)
            },
            None => KvMap::new(),
        };
        match self.data.get_map(p) {
            Some(m) => {
                acc.extend_with(m);
            },
            None => {
                proof {
                    assert(acc.as_map().union_prefer_right(Map::<Seq<char>, Seq<char>>::empty())
                        =~= acc.as_map());
                }
            },
        }
        proof {
            if spec_parent(p@) is None {
                assert(Map::<Seq<char>, Seq<char>>::empty().union_prefer_right(
                    spec_merged(self.store_map(), p@),
                ) =~= spec_merged(self.store_map(), p@));
            }
        }
        acc
    }

    /// Every key visible from the working directory with the value its
    /// nearest ancestor gives it.
    pub fn get_value_all(&self) -> (r: KvMap)
        requires
            self.wf(),
        ensures
            r.wf(),
            r.as_map() == spec_merged(self.store_map(), self.config.pwd@),
    {
        self.merged_from(&self.config.pwd)
    }

    /// Sets `key` to `value` at the working directory itself; no other
    /// path's pairs change.
    pub fn set_value(&mut self, key: &str, value: &str)
        requires
            old(self).wf(),
        ensures
            final(self).wf(),
            final(self).config == old(self).config,
            final(self).store_map() == old(self).store_map().insert(
                old(self).config.pwd@,
                (if old(self).store_map().contains_key(old(self).config.pwd@) {
                    old(self).store_map()[old(self).config.pwd@]
                } else {
                    Map::<Seq<char>, Seq<char>>::empty()
                }).insert(key@, value@),
            ),
    {
        let pwd = self.config.pwd.clone();
        self.data.set(&pwd, key.to_owned(), value.to_owned());
    }

    /// Deletes `key` from the working directory's own pairs when it is
    /// there; a key only inherited from an ancestor stays visible.
    pub fn remove_value(&mut self, key: &str)
        requires
            old(self).wf(),
        ensures
            final(self).wf(),
            final(self).config == old(self).config,
            final(self).store_map() == (if old(self).store_map().contains_key(
                old(self).config.pwd@,
            ) {
                old(self).store_map().insert(
                    old(self).config.pwd@,
                    old(self).store_map()[old(self).config.pwd@].remove(key@),
                )
            } else {
                old(self).store_map()
            }),
    {
        let pwd = self.config.pwd.clone();
        self.data.remove_in(&pwd, key);
    }
}

/// The two lookups agree: a single-key lookup from `p` finds exactly
/// what the full overlay from `p` holds for that key, so the most
/// specific path wins in both.
pub proof fn lemma_lookup_matches_merged(
    m: Map<Seq<char>, Map<Seq<char>, Seq<char>>>,
    p: Seq<char>,
    key: Seq<char>,
)
    ensures
        spec_lookup(m, p, key) == (if spec_merged(m, p).contains_key(key) {
            Some(spec_merged(m, p)[key])
        } else {
            None::<Seq<char>>
        }),
    decreases p.len(),
{
    lemma_parent_shorter(p);
    match spec_parent(p) {
        None => {},
        Some(q) => {
            lemma_lookup_matches_merged(m, q, key);
        },
    }
}

/// Round trip: rendering the store and parsing the document back yields
/// exactly the same entries, hence the same mapping — saving and
/// reloading without intervening mutation loses nothing.
pub proof fn lemma_save_reload_identity(sd: StoreData)
    ensures
        parse_store_text(render_store_text(sd.seq())) == Some(sd.seq()),
        store_map_of(sd.seq()) == sd.as_map(),
{
    crate::json::lemma_store_text_round_trip(sd.seq());
    assert(path_pairs_to_maps(sd.seq()) =~= sd.pair_maps());
}

} // verus!
