//! The module table of the scripting-module bundler: a mapping from
//! component name to the modules staged for it, each module a name/content
//! pair. The table is an association list kept keyed by distinct names, so
//! inserting a module for a component overrides an earlier module of the
//! same name.

use crate::assoc::assoc_map;
use crate::assoc::distinct_keys;
use crate::assoc::lemma_assoc_map_index;
use crate::assoc::lemma_assoc_map_membership;
use crate::assoc::lemma_assoc_map_push;
use crate::assoc::lemma_assoc_map_remove;
use crate::assoc::lemma_assoc_map_update;
use crate::refs::slash;
use crate::text::append_bytes;
use crate::text::ends_with;
use crate::text::ends_with_bytes;
use crate::text::replace_bytes;
use crate::text::replace_spec;
use crate::text::subrange_vec;
use vstd::pervasive::VecAdditionalExecFns;
use vstd::prelude::*;

verus! {

/// ".lua", the module file extension.
pub open spec fn lua_suffix() -> Seq<u8> {
    seq![46u8, 108u8, 117u8, 97u8]
}

/// ".lua" as bytes.
fn lua_suffix_bytes() -> (r: Vec<u8>)
    ensures
        r@ == lua_suffix(),
{
    let mut v: Vec<u8> = Vec::new();
    v.push(46u8);
    v.push(108u8);
    v.push(117u8);
    v.push(97u8);
    proof {
        assert(v@ =~= lua_suffix());
    }
    v
}

/// The file a dotted module name loads from: under the component's
/// directory, with each dot a directory separator and the module extension
/// appended.
pub fn module_file_path(factorio_data: &[u8], mod_name: &[u8], module_name: &[u8]) -> (p: Vec<u8>)
    ensures
        p@ == factorio_data@ + slash() + mod_name@ + slash() + replace_spec(
            module_name@,
            seq![46u8],
            slash(),
        ) + lua_suffix(),
{
    let mut dot: Vec<u8> = Vec::new();
    dot.push(46u8);
    let mut sl: Vec<u8> = Vec::new();
    sl.push(47u8);
    proof {
        assert(dot@ =~= seq![46u8]);
        assert(sl@ =~= slash());
    }
    let rel = replace_bytes(module_name, dot.as_slice(), sl.as_slice());
    let lua = lua_suffix_bytes();
    let mut p: Vec<u8> = Vec::new();
    append_bytes(&mut p, factorio_data);
    p.push(47u8);
    append_bytes(&mut p, mod_name);
    p.push(47u8);
    append_bytes(&mut p, rel.as_slice());
    append_bytes(&mut p, lua.as_slice());
    proof {
        assert(p@ =~= factorio_data@ + slash() + mod_name@ + slash() + replace_spec(
            module_name@,
            seq![46u8],
            slash(),
        ) + lua_suffix());
    }
    p
}

/// The dotted module name a file path under the script library denotes:
/// the module extension dropped and each directory separator a dot.
pub fn module_name_of_path(rel: &[u8]) -> (r: Vec<u8>)
    ensures
        ends_with(rel@, lua_suffix()) ==> r@ == replace_spec(
            rel@.take(rel@.len() - 4),
            slash(),
            seq![46u8],
        ),
        !ends_with(rel@, lua_suffix()) ==> r@ == replace_spec(rel@, slash(), seq![46u8]),
{
    let lua = lua_suffix_bytes();
    let stem = if ends_with_bytes(rel, lua.as_slice()) {
        subrange_vec(rel, 0, rel.len() - 4)
    } else {
        subrange_vec(rel, 0, rel.len())
    };
    proof {
        if !ends_with(rel@, lua_suffix()) {
            assert(rel@.subrange(0, rel@.len() as int) =~= rel@);
        }
    }
    let mut sl: Vec<u8> = Vec::new();
    sl.push(47u8);
    let mut dot: Vec<u8> = Vec::new();
    dot.push(46u8);
    proof {
        assert(sl@ =~= slash());
        assert(dot@ =~= seq![46u8]);
    }
    replace_bytes(stem.as_slice(), sl.as_slice(), dot.as_slice())
}

/// The views of one component's module list.
pub open spec fn inner_views(m: Seq<(String, String)>) -> Seq<(Seq<char>, Seq<char>)> {
    Seq::new(m.len(), |i: int| (m[i].0@, m[i].1@))
}

/// The module mapping one component's list denotes.
pub open spec fn inner_map(m: Seq<(String, String)>) -> Map<Seq<char>, Seq<char>> {
    assoc_map(inner_views(m))
}

/// The modules a map holds for a component: empty while the component has
/// none.
pub open spec fn component_modules(
    m: Map<Seq<char>, Map<Seq<char>, Seq<char>>>,
    name: Seq<char>,
) -> Map<Seq<char>, Seq<char>> {
    if m.contains_key(name) {
        m[name]
    } else {
        Map::empty()
    }
}

/// The staged modules, grouped by component name.
pub struct Mods {
    modules: Vec<(String, Vec<(String, String)>)>,
    factorio_data: String,
}

/// Looks a key up in one component's module list.
fn find_inner(list: &Vec<(String, String)>, key: &String) -> (r: Option<usize>)
    ensures
        match r {
            Some(j) => j < list@.len() && list@[j as int].0@ == key@,
            None => forall|k: int| 0 <= k < list@.len() ==> inner_views(list@)[k].0 != key@,
        },
{
    let mut j: usize = 0;
    while j < list.len()
        invariant
            j <= list@.len(),
            forall|k: int| 0 <= k < j ==> inner_views(list@)[k].0 != key@,
        decreases list@.len() - j,
    {
        if list[j].0 == *key {
            return Some(j);
        }
        j = j + 1;
    }
    None
}

impl Mods {
    /// The components with their module mappings.
    pub closed spec fn outer_views(&self) -> Seq<(Seq<char>, Map<Seq<char>, Seq<char>>)> {
        Seq::new(
            self.modules@.len(),
            |i: int| (self.modules@[i].0@, inner_map(self.modules@[i].1@)),
        )
    }

    /// The table the staged modules denote.
    pub closed spec fn as_map(&self) -> Map<Seq<char>, Map<Seq<char>, Seq<char>>> {
        assoc_map(self.outer_views())
    }

    /// Component names distinct, and module names distinct within each.
    pub closed spec fn wf(&self) -> bool {
        &&& distinct_keys(self.outer_views())
        &&& forall|i: int|
            0 <= i < self.modules@.len() ==> distinct_keys(
                inner_views((#[trigger] self.modules@[i]).1@),
            )
    }

    /// The data directory the table was created for.
    pub closed spec fn spec_data_dir(&self) -> Seq<char> {
        self.factorio_data@
    }

    /// An empty table for the payload's data directory.
    pub fn new(factorio_data: String) -> (m: Mods)
        ensures
            m.wf(),
            m.as_map() == Map::<Seq<char>, Map<Seq<char>, Seq<char>>>::empty(),
            m.spec_data_dir() == factorio_data@,
    {
        let m = Mods { modules: Vec::new(), factorio_data };
        proof {
            assert(m.outer_views() =~= Seq::<(Seq<char>, Map<Seq<char>, Seq<char>>)>::empty());
        }
        m
    }

    /// The data directory the table was created for.
    pub fn data_dir(&self) -> (d: &String)
        ensures
            d@ == self.spec_data_dir(),
    {
        &self.factorio_data
    }

    /// Stages `content` as module `module_name` of component `mod_name`,
    /// creating the component on first use and overriding an earlier module
    /// of the same name.
    pub fn add(&mut self, mod_name: &str, module_name: &str, content: String)
        requires
            old(self).wf(),
        ensures
            final(self).wf(),
            final(self).as_map() == old(self).as_map().insert(
                mod_name@,
                component_modules(old(self).as_map(), mod_name@).insert(module_name@, content@),
            ),
            final(self).spec_data_dir() == old(self).spec_data_dir(),
    {
        let key: String = mod_name.to_owned();
        let mkey: String = module_name.to_owned();
        let ghost ov = self.outer_views();
        let mut i: usize = 0;
        let mut found: Option<usize> = None;
        while i < self.modules.len()
            invariant
                self == old(self),
                ov == self.outer_views(),
                i <= self.modules@.len(),
                key@ == mod_name@,
                match found {
                    Some(f) => f < i && ov[f as int].0 == key@,
                    None => forall|k: int| 0 <= k < i ==> ov[k].0 != key@,
                },
            decreases self.modules@.len() - i,
        {
            if found.is_none() && self.modules[i].0 == key {
                found = Some(i);
            }
            i = i + 1;
        }
        match found {
            Some(f) => {
                proof {
                    assert(ov[f as int].0 == key@);
                    lemma_assoc_map_index(ov, f as int);
                    lemma_assoc_map_remove(ov, f as int);
                }
                let pair = self.modules.remove(f);
                let outer_key = pair.0;
                let mut inner = pair.1;
                proof {
                    assert(self.outer_views() =~= ov.remove(f as int));
                }
                let ghost iv = inner_views(inner@);
                let ghost old_inner = inner_map(inner@);
                proof {
                    assert(old_inner == old(self).as_map()[key@]);
                    assert(distinct_keys(iv));
                }
                match find_inner(&inner, &mkey) {
                    Some(j) => {
                        proof {
                            assert(iv[j as int].0 == mkey@);
                            lemma_assoc_map_update(iv, j as int, content@);
                        }
                        inner.set(j, (mkey, content));
                        proof {
                            assert(inner_views(inner@) =~= iv.update(
                                j as int,
                                (iv[j as int].0, content@),
                            ));
                            assert(distinct_keys(inner_views(inner@)));
                            assert(inner_map(inner@) == old_inner.insert(module_name@, content@));
                        }
                    },
                    None => {
                        proof {
                            lemma_assoc_map_push(iv, (mkey@, content@));
                        }
                        inner.push((mkey, content));
                        proof {
                            assert(inner_views(inner@) =~= iv.push((mkey@, content@)));
                            assert(distinct_keys(inner_views(inner@)));
                            assert(inner_map(inner@) == old_inner.insert(module_name@, content@));
                        }
                    },
                }
                let ghost mid = self.outer_views();
                let ghost new_inner = inner_map(inner@);
                proof {
                    lemma_assoc_map_push(mid, (outer_key@, new_inner));
                    assert(forall|a: int|
                        0 <= a < mid.len() ==> mid[a] == (if a < f {
                            ov[a]
                        } else {
                            ov[a + 1]
                        }));
                }
                self.modules.push((outer_key, inner));
                proof {
                    assert(self.outer_views() =~= mid.push((key@, new_inner)));
                    assert(distinct_keys(self.outer_views()));
                    assert(self.as_map() == old(self).as_map().remove(key@).insert(
                        key@,
                        new_inner,
                    ));
                    assert(old(self).as_map().remove(key@).insert(key@, new_inner)
                        =~= old(self).as_map().insert(key@, new_inner));
                    assert(component_modules(old(self).as_map(), mod_name@) == old_inner);
                }
            },
            None => {
                proof {
                    lemma_assoc_map_membership(ov, key@);
                    assert(!old(self).as_map().contains_key(key@));
                }
                let mut inner: Vec<(String, String)> = Vec::new();
                inner.push((mkey, content));
                proof {
                    assert(inner_views(inner@) =~= Seq::<(Seq<char>, Seq<char>)>::empty().push(
                        (mkey@, content@),
                    ));
                    lemma_assoc_map_push(Seq::<(Seq<char>, Seq<char>)>::empty(), (mkey@, content@));
                    assert(inner_map(inner@) == Map::<Seq<char>, Seq<char>>::empty().insert(
                        module_name@,
                        content@,
                    ));
                    lemma_assoc_map_push(ov, (key@, inner_map(inner@)));
                }
                let ghost new_inner = inner_map(inner@);
                self.modules.push((key, inner));
                proof {
                    assert(self.outer_views() =~= ov.push((mod_name@, new_inner)));
                    assert(distinct_keys(self.outer_views()));
                    assert(component_modules(old(self).as_map(), mod_name@)
                        =~= Map::<Seq<char>, Seq<char>>::empty());
                }
            },
        }
    }

    /// The content staged for one module of one component, if any.
    pub fn content_of(&self, mod_name: &str, module_name: &str) -> (r: Option<&String>)
        requires
            self.wf(),
        ensures
            match r {
                Some(c) => {
                    &&& self.as_map().contains_key(mod_name@)
                    &&& self.as_map()[mod_name@].contains_key(module_name@)
                    &&& self.as_map()[mod_name@][module_name@] == c@
                },
                None => !(self.as_map().contains_key(mod_name@)
                    && self.as_map()[mod_name@].contains_key(module_name@)),
            },
    {
        let key: String = mod_name.to_owned();
        let mkey: String = module_name.to_owned();
        let ghost ov = self.outer_views();
        let mut i: usize = 0;
        while i < self.modules.len()
            invariant
                self.wf(),
                ov == self.outer_views(),
                i <= self.modules@.len(),
                key@ == mod_name@,
                mkey@ == module_name@,
                forall|k: int| 0 <= k < i ==> ov[k].0 != key@,
            decreases self.modules@.len() - i,
        {
            if self.modules[i].0 == key {
                proof {
                    lemma_assoc_map_index(ov, i as int);
                }
                let inner = &self.modules[i].1;
                let ghost iv = inner_views(inner@);
                match find_inner(inner, &mkey) {
                    Some(j) => {
                        proof {
                            lemma_assoc_map_index(iv, j as int);
                        }
                        return Some(&inner[j].1);
                    },
                    None => {
                        proof {
                            lemma_assoc_map_membership(iv, mkey@);
                        }
                        return None;
                    },
                }
            }
            i = i + 1;
        }
        proof {
            lemma_assoc_map_membership(ov, key@);
        }
        None
    }
}

} // verus!
