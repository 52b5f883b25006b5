//! The configuration tree: scalar leaves and nested sections, with the
//! path-descent insertion that dotted keys drive.

use vstd::prelude::*;
use crate::error::{ConfigError, SpecError};
use crate::text::str_eq;

verus! {

/// A node of the configuration tree.
///
/// A `Scalar` holds the raw trimmed value text of one `key = value` line.
/// A `Section` holds named children; the order of the entries carries no
/// meaning and every key occurs at most once (see [`ConfigValue::wf`]).
#[derive(Debug)]
pub enum ConfigValue {
    Scalar(String),
    Section(Vec<(String, ConfigValue)>),
}

/// The mathematical shape of a [`ConfigValue`]: a section is a map from
/// segment name to child node, so that entry order disappears from view.
pub enum SpecValue {
    Scalar(Seq<char>),
    Section(Map<Seq<char>, SpecValue>),
}

/// No key occurs twice in an entry list.
pub open spec fn unique_keys(entries: Seq<(String, ConfigValue)>) -> bool {
    forall|i: int, j: int| 0 <= i < j < entries.len() ==> entries[i].0@ != entries[j].0@
}

/// A well-formed entry list: unique keys and well-formed children.
pub open spec fn section_wf(entries: Seq<(String, ConfigValue)>) -> bool
    decreases entries,
{
    unique_keys(entries) && (forall|i: int|
        0 <= i < entries.len() ==> (#[trigger] entries[i]).1.wf())
}

impl ConfigValue {
    /// The abstract value of this node.
    pub open spec fn model(self) -> SpecValue
        decreases self,
    {
        match self {
            ConfigValue::Scalar(s) => SpecValue::Scalar(s@),
            ConfigValue::Section(entries) => SpecValue::Section(section_model(entries@)),
        }
    }

    /// Well-formed: within every section each key occurs at most once.
    pub open spec fn wf(self) -> bool
        decreases self,
    {
        match self {
            ConfigValue::Scalar(_) => true,
            ConfigValue::Section(entries) => section_wf(entries@),
        }
    }

    /// Looks a single segment name up in this node, which must be a section
    /// for anything to be found.
    pub fn section_get<'a>(&'a self, key: &str) -> (r: Option<&'a ConfigValue>)
        requires
            self.wf(),
        ensures
            match self.model() {
                SpecValue::Section(m) => match r {
                    Some(v) => m.contains_key(key@) && v.model() == m[key@] && v.wf(),
                    None => !m.contains_key(key@),
                },
                SpecValue::Scalar(_) => r is None,
            },
    {
        match self {
            ConfigValue::Scalar(_) => None,
            ConfigValue::Section(entries) => {
                proof {
                    lemma_section_model_keys(entries@);
                }
                match section_find(entries, key) {
                    Some(j) => {
                        proof {
                            lemma_section_model_at(entries@, j as int);
                        }
                        Some(&entries[j].1)
                    },
                    None => None,
                }
            },
        }
    }
}

/// The map described by a section's entry list; a later entry for the same
/// key would shadow an earlier one.
pub open spec fn section_model(entries: Seq<(String, ConfigValue)>) -> Map<Seq<char>, SpecValue>
    decreases entries,
{
    if entries.len() == 0 {
        Map::empty()
    } else {
        section_model(entries.drop_last()).insert(
            entries.last().0@,
            entries.last().1.model(),
        )
    }
}

/// A section's model contains exactly the keys of its entries.
pub proof fn lemma_section_model_keys(entries: Seq<(String, ConfigValue)>)
    ensures
        forall|k: Seq<char>|
            #[trigger] section_model(entries).contains_key(k) <==> (exists|i: int|
                0 <= i < entries.len() && (#[trigger] entries[i]).0@ == k),
    decreases entries.len(),
{
    if entries.len() > 0 {
        lemma_section_model_keys(entries.drop_last());
        assert forall|k: Seq<char>| #[trigger] section_model(entries).contains_key(k) implies (
        exists|i: int| 0 <= i < entries.len() && (#[trigger] entries[i]).0@ == k) by {
            if k == entries.last().0@ {
                assert(entries[entries.len() - 1].0@ == k);
            } else {
                assert(section_model(entries.drop_last()).contains_key(k));
                let i = choose|i: int|
                    0 <= i < entries.drop_last().len() && (#[trigger] entries.drop_last()[i]).0@
                        == k;
                assert(entries.drop_last()[i] == entries[i]);
                assert(entries[i].0@ == k);
            }
        }
        assert forall|k: Seq<char>| (exists|i: int|
            0 <= i < entries.len() && (#[trigger] entries[i]).0@ == k) implies #[trigger]
        section_model(entries).contains_key(k) by {
            let i = choose|i: int| 0 <= i < entries.len() && (#[trigger] entries[i]).0@ == k;
            if i < entries.len() - 1 {
                assert(entries.drop_last()[i] == entries[i]);
                assert(entries.drop_last()[i].0@ == k);
                assert(section_model(entries.drop_last()).contains_key(k));
            }
        }
    }
}

/// With unique keys, the model maps each entry's key to that entry's value.
pub proof fn lemma_section_model_at(entries: Seq<(String, ConfigValue)>, j: int)
    requires
        unique_keys(entries),
        0 <= j < entries.len(),
    ensures
        section_model(entries).contains_key(entries[j].0@),
        section_model(entries)[entries[j].0@] == entries[j].1.model(),
    decreases entries.len(),
{
    if j < entries.len() - 1 {
        assert(entries.drop_last()[j] == entries[j]);
        lemma_section_model_at(entries.drop_last(), j);
        assert(entries.last().0@ != entries[j].0@);
    }
}

/// Replacing the entry at `j` by one with the same key updates the model at
/// that key and nothing else.
pub proof fn lemma_section_model_update(
    entries: Seq<(String, ConfigValue)>,
    j: int,
    key: String,
    v: ConfigValue,
)
    requires
        unique_keys(entries),
        0 <= j < entries.len(),
        entries[j].0@ == key@,
    ensures
        section_model(entries.update(j, (key, v))) == section_model(entries).insert(
            key@,
            v.model(),
        ),
    decreases entries.len(),
{
    let upd = entries.update(j, (key, v));
    if j == entries.len() - 1 {
        assert(upd.drop_last() =~= entries.drop_last());
        assert(upd.last() == (key, v));
        assert(section_model(upd) =~= section_model(entries).insert(key@, v.model()));
    } else {
        assert(upd.drop_last() =~= entries.drop_last().update(j, (key, v)));
        assert(entries.drop_last()[j] == entries[j]);
        lemma_section_model_update(entries.drop_last(), j, key, v);
        assert(upd.last() == entries.last());
        assert(entries.last().0@ != key@);
        assert(section_model(upd) =~= section_model(entries).insert(key@, v.model()));
    }
}

/// Finds the position of `key` in an entry list.
fn section_find(entries: &Vec<(String, ConfigValue)>, key: &str) -> (r: Option<usize>)
    ensures
        match r {
            Some(j) => j < entries@.len() && entries@[j as int].0@ == key@,
            None => forall|i: int| 0 <= i < entries@.len() ==> (#[trigger] entries@[i]).0@ != key@,
        },
{
    let mut j: usize = 0;
    while j < entries.len()
        invariant
            0 <= j <= entries@.len(),
            forall|i: int| 0 <= i < j ==> (#[trigger] entries@[i]).0@ != key@,
        decreases entries@.len() - j,
    {
        if str_eq(entries[j].0.as_str(), key) {
            return Some(j);
        }
        j = j + 1;
    }
    None
}

/// Descends from a section along `segs`, creating sections on the way, and
/// places a scalar at the last segment, overwriting a prior scalar there.
/// A scalar met during the descent, or a section standing at the last
/// segment, is a structural conflict: a path never changes between scalar
/// and section.
pub open spec fn spec_insert_path(
    m: Map<Seq<char>, SpecValue>,
    segs: Seq<Seq<char>>,
    value: Seq<char>,
) -> Result<Map<Seq<char>, SpecValue>, SpecError>
    decreases segs.len(),
{
    if segs.len() == 0 {
        Ok(m)
    } else if segs.len() == 1 {
        if m.contains_key(segs[0]) && m[segs[0]] is Section {
            Err(SpecError::StructuralConflict { segment: segs[0] })
        } else {
            Ok(m.insert(segs[0], SpecValue::Scalar(value)))
        }
    } else {
        let child = if m.contains_key(segs[0]) {
            m[segs[0]]
        } else {
            SpecValue::Section(Map::empty())
        };
        match child {
            SpecValue::Scalar(_) => Err(SpecError::StructuralConflict { segment: segs[0] }),
            SpecValue::Section(cm) => match spec_insert_path(cm, segs.drop_first(), value) {
                Ok(cm2) => Ok(m.insert(segs[0], SpecValue::Section(cm2))),
                Err(e) => Err(e),
            },
        }
    }
}

/// Follows a path of segment names down from the section `m`; the empty
/// path names the section itself.
pub open spec fn path_lookup(m: Map<Seq<char>, SpecValue>, path: Seq<Seq<char>>) -> Option<
    SpecValue,
>
    decreases path.len(),
{
    if path.len() == 0 {
        Some(SpecValue::Section(m))
    } else if !m.contains_key(path[0]) {
        None
    } else if path.len() == 1 {
        Some(m[path[0]])
    } else {
        match m[path[0]] {
            SpecValue::Scalar(_) => None,
            SpecValue::Section(cm) => path_lookup(cm, path.drop_first()),
        }
    }
}

/// A section stands at `path` below `m`.
pub open spec fn section_at(m: Map<Seq<char>, SpecValue>, path: Seq<Seq<char>>) -> bool {
    path_lookup(m, path) matches Some(SpecValue::Section(_))
}

/// `p` is a prefix of the path `q`.
pub open spec fn is_path_prefix(p: Seq<Seq<char>>, q: Seq<Seq<char>>) -> bool {
    p.len() <= q.len() && p == q.take(p.len() as int)
}

/// An insertion leaves every top-level key but its first segment untouched.
pub proof fn lemma_insert_path_frame(
    m: Map<Seq<char>, SpecValue>,
    segs: Seq<Seq<char>>,
    value: Seq<char>,
    k: Seq<char>,
)
    requires
        segs.len() >= 1,
        k != segs[0],
        spec_insert_path(m, segs, value) is Ok,
    ensures
        (spec_insert_path(m, segs, value)->Ok_0).contains_key(k) == m.contains_key(k),
        m.contains_key(k) ==> (spec_insert_path(m, segs, value)->Ok_0)[k] == m[k],
{
}

/// After a successful insertion the scalar stands at the full path, and a
/// section stands at every proper prefix of the path.
pub proof fn lemma_insert_path_found(
    m: Map<Seq<char>, SpecValue>,
    segs: Seq<Seq<char>>,
    value: Seq<char>,
)
    requires
        segs.len() >= 1,
        spec_insert_path(m, segs, value) is Ok,
    ensures
        path_lookup((spec_insert_path(m, segs, value))->Ok_0, segs) == Some(
            SpecValue::Scalar(value),
        ),
        forall|d: int|
            0 < d < segs.len() ==> section_at(
                (spec_insert_path(m, segs, value))->Ok_0,
                #[trigger] segs.take(d),
            ),
    decreases segs.len(),
{
    let m2 = (spec_insert_path(m, segs, value))->Ok_0;
    if segs.len() == 1 {
        assert(path_lookup(m2, segs) == Some(SpecValue::Scalar(value)));
    } else {
        let child = if m.contains_key(segs[0]) {
            m[segs[0]]
        } else {
            SpecValue::Section(Map::empty())
        };
        let cm = child->Section_0;
        let cm2 = (spec_insert_path(cm, segs.drop_first(), value))->Ok_0;
        assert(m2 == m.insert(segs[0], SpecValue::Section(cm2)));
        lemma_insert_path_found(cm, segs.drop_first(), value);
        assert(path_lookup(m2, segs) == path_lookup(cm2, segs.drop_first()));
        assert forall|d: int| 0 < d < segs.len() implies section_at(m2, #[trigger] segs.take(d)) by {
            if d == 1 {
                assert(segs.take(1)[0] == segs[0]);
                assert(path_lookup(m2, segs.take(1)) == Some(m2[segs[0]]));
            } else {
                assert(segs.take(d)[0] == segs[0]);
                assert(segs.take(d).drop_first() =~= segs.drop_first().take(d - 1));
                assert(path_lookup(m2, segs.take(d)) == path_lookup(
                    cm2,
                    segs.drop_first().take(d - 1),
                ));
            }
        }
    }
}

/// Inserting along a path of which the watched path is not an extension
/// leaves the scalar at the watched path, and the sections above it, as
/// they were.
pub proof fn lemma_insert_path_preserves(
    m: Map<Seq<char>, SpecValue>,
    segs2: Seq<Seq<char>>,
    value2: Seq<char>,
    segs: Seq<Seq<char>>,
    value: Seq<char>,
)
    requires
        segs.len() >= 1,
        segs2.len() >= 1,
        spec_insert_path(m, segs2, value2) is Ok,
        !is_path_prefix(segs2, segs),
        path_lookup(m, segs) == Some(SpecValue::Scalar(value)),
        forall|d: int| 0 < d < segs.len() ==> section_at(m, #[trigger] segs.take(d)),
    ensures
        path_lookup((spec_insert_path(m, segs2, value2))->Ok_0, segs) == Some(
            SpecValue::Scalar(value),
        ),
        forall|d: int|
            0 < d < segs.len() ==> section_at(
                (spec_insert_path(m, segs2, value2))->Ok_0,
                #[trigger] segs.take(d),
            ),
    decreases segs.len(),
{
    let m2 = (spec_insert_path(m, segs2, value2))->Ok_0;
    if segs2[0] != segs[0] {
        assert(m2.contains_key(segs[0]) && m2[segs[0]] == m[segs[0]]) by {
            lemma_insert_path_frame(m, segs2, value2, segs[0]);
        }
        assert(path_lookup(m2, segs) == path_lookup(m, segs));
        assert forall|d: int| 0 < d < segs.len() implies section_at(m2, #[trigger] segs.take(d)) by {
            assert(segs.take(d)[0] == segs[0]);
            assert(path_lookup(m2, segs.take(d)) == path_lookup(m, segs.take(d)));
        }
    } else {
        if segs.len() == 1 {
            if segs2.len() == 1 {
                assert(segs2 =~= segs.take(1));
                assert(is_path_prefix(segs2, segs));
            } else {
                assert(m[segs2[0]] == SpecValue::Scalar(value));
                assert(spec_insert_path(m, segs2, value2) is Err);
            }
        } else {
            assert(section_at(m, segs.take(1)));
            assert(segs.take(1)[0] == segs[0]);
            let cm = m[segs[0]]->Section_0;
            assert(m[segs[0]] == SpecValue::Section(cm));
            if segs2.len() == 1 {
                assert(segs2 =~= segs.take(1));
                assert(is_path_prefix(segs2, segs));
            } else {
                let cm2 = (spec_insert_path(cm, segs2.drop_first(), value2))->Ok_0;
                assert(m2 == m.insert(segs[0], SpecValue::Section(cm2)));
                assert(!is_path_prefix(segs2.drop_first(), segs.drop_first())) by {
                    if is_path_prefix(segs2.drop_first(), segs.drop_first()) {
                        assert(segs2 =~= segs.take(segs2.len() as int)) by {
                            assert forall|x: int| 0 <= x < segs2.len() implies segs2[x] == segs.take(
                                segs2.len() as int,
                            )[x] by {
                                if x > 0 {
                                    assert(segs2.drop_first()[x - 1] == segs.drop_first().take(
                                        segs2.len() - 1,
                                    )[x - 1]);
                                }
                            }
                        }
                        assert(is_path_prefix(segs2, segs));
                    }
                }
                assert(path_lookup(cm, segs.drop_first()) == Some(SpecValue::Scalar(value)));
                assert forall|d: int|
                    0 < d < segs.drop_first().len() implies section_at(
                    cm,
                    #[trigger] segs.drop_first().take(d),
                ) by {
                    assert(section_at(m, segs.take(d + 1)));
                    assert(segs.take(d + 1)[0] == segs[0]);
                    assert(segs.take(d + 1).drop_first() =~= segs.drop_first().take(d));
                    assert(path_lookup(m, segs.take(d + 1)) == path_lookup(
                        cm,
                        segs.drop_first().take(d),
                    ));
                }
                lemma_insert_path_preserves(cm, segs2.drop_first(), value2, segs.drop_first(), value);
                assert(path_lookup(m2, segs) == path_lookup(cm2, segs.drop_first()));
                assert forall|d: int|
                    0 < d < segs.len() implies section_at(m2, #[trigger] segs.take(d)) by {
                    if d == 1 {
                        assert(segs.take(1)[0] == segs[0]);
                        assert(path_lookup(m2, segs.take(1)) == Some(m2[segs[0]]));
                    } else {
                        assert(segs.take(d)[0] == segs[0]);
                        assert(segs.take(d).drop_first() =~= segs.drop_first().take(d - 1));
                        assert(path_lookup(m2, segs.take(d)) == path_lookup(
                            cm2,
                            segs.drop_first().take(d - 1),
                        ));
                    }
                }
            }
        }
    }
}

/// Inserts `value` at the path `segs[idx..]` below the section given by
/// `entries`, mirroring [`spec_insert_path`] exactly.
pub fn insert_path(
    entries: Vec<(String, ConfigValue)>,
    segs: &Vec<String>,
    idx: usize,
    value: &str,
) -> (r: Result<Vec<(String, ConfigValue)>, ConfigError>)
    requires
        idx < segs@.len(),
        section_wf(entries@),
    ensures
        match r {
            Ok(out) => section_wf(out@) && spec_insert_path(
                section_model(entries@),
                segs.deep_view().skip(idx as int),
                value@,
            ) == Ok::<_, SpecError>(section_model(out@)),
            Err(e) => spec_insert_path(
                section_model(entries@),
                segs.deep_view().skip(idx as int),
                value@,
            ) == Err::<Map<Seq<char>, SpecValue>, _>(e.model()),
        },
    decreases segs@.len() - idx,
{
    let ghost m0 = section_model(entries@);
    let ghost path = segs.deep_view().skip(idx as int);
    proof {
        assert(segs.deep_view().len() == segs@.len());
        assert(path.len() == segs@.len() - idx);
        assert(path[0] == segs@[idx as int]@);
        lemma_section_model_keys(entries@);
    }
    let mut entries = entries;
    let seg: &String = &segs[idx];
    let found: Option<usize> = section_find(&entries, seg.as_str());
    if idx == segs.len() - 1 {
        let leaf = ConfigValue::Scalar(value.to_owned());
        match found {
            Some(j) => {
                proof {
                    assert(entries@[j as int].0@ == path[0]);
                    assert(m0.contains_key(path[0]));
                    lemma_section_model_at(entries@, j as int);
                }
                let existing_is_section: bool = match &entries[j].1 {
                    ConfigValue::Scalar(_) => false,
                    ConfigValue::Section(_) => true,
                };
                if existing_is_section {
                    proof {
                        assert(spec_insert_path(m0, path, value@) == Err::<
                            Map<Seq<char>, SpecValue>,
                            _,
                        >(SpecError::StructuralConflict { segment: path[0] }));
                    }
                    Err(ConfigError::StructuralConflict { segment: seg.clone() })
                } else {
                    let ghost before = entries@;
                    entries[j] = (seg.clone(), leaf);
                    proof {
                        lemma_section_model_update(
                            before,
                            j as int,
                            entries@[j as int].0,
                            entries@[j as int].1,
                        );
                        assert(entries@ =~= before.update(
                            j as int,
                            (entries@[j as int].0, entries@[j as int].1),
                        ));
                        assert(section_model(entries@) =~= m0.insert(
                            path[0],
                            SpecValue::Scalar(value@),
                        ));
                    }
                    Ok(entries)
                }
            },
            None => {
                let ghost before = entries@;
                entries.push((seg.clone(), leaf));
                proof {
                    assert(!m0.contains_key(path[0]));
                    assert(entries@.drop_last() =~= before);
                    assert(section_model(entries@) =~= m0.insert(path[0], SpecValue::Scalar(value@)));
                }
                Ok(entries)
            },
        }
    } else {
        proof {
            assert(path.drop_first() =~= segs.deep_view().skip(idx as int + 1));
        }
        match found {
            Some(j) => {
                proof {
                    lemma_section_model_at(entries@, j as int);
                }
                let ghost before = entries@;
                let kv = entries.remove(j);
                let k = kv.0;
                proof {
                    assert(before[j as int].0@ == path[0]);
                    assert(m0.contains_key(path[0]));
                    assert(m0[path[0]] == before[j as int].1.model());
                }
                match kv.1 {
                    ConfigValue::Scalar(_) => {
                        proof {
                            assert(spec_insert_path(m0, path, value@) == Err::<
                                Map<Seq<char>, SpecValue>,
                                _,
                            >(SpecError::StructuralConflict { segment: path[0] }));
                        }
                        Err(ConfigError::StructuralConflict { segment: k })
                    },
                    ConfigValue::Section(child_entries) => {
                        let ghost cm = section_model(child_entries@);
                        proof {
                            assert(m0[path[0]] == SpecValue::Section(cm));
                        }
                        match insert_path(child_entries, segs, idx + 1, value) {
                            Err(e) => Err(e),
                            Ok(new_child) => {
                                let ghost cm2 = section_model(new_child@);
                                let ghost pair = (k, ConfigValue::Section(new_child));
                                entries.insert(j, (k, ConfigValue::Section(new_child)));
                                proof {
                                    assert(spec_insert_path(cm, path.drop_first(), value@)
                                        == Ok::<_, SpecError>(cm2));
                                    assert(entries@ =~= before.update(j as int, pair));
                                    lemma_section_model_update(before, j as int, pair.0, pair.1);
                                    assert(section_model(entries@) == m0.insert(
                                        path[0],
                                        SpecValue::Section(cm2),
                                    ));
                                    assert(spec_insert_path(m0, path, value@) == Ok::<
                                        _,
                                        SpecError,
                                    >(section_model(entries@)));
                                }
                                Ok(entries)
                            },
                        }
                    },
                }
            },
            None => {
                proof {
                    assert(!m0.contains_key(path[0]));
                }
                let child_entries: Vec<(String, ConfigValue)> = Vec::new();
                proof {
                    assert(child_entries@ =~= Seq::<(String, ConfigValue)>::empty());
                    assert(section_model(child_entries@) =~= Map::<Seq<char>, SpecValue>::empty());
                }
                match insert_path(child_entries, segs, idx + 1, value) {
                    Err(e) => Err(e),
                    Ok(new_child) => {
                        let ghost cm2 = section_model(new_child@);
                        let ghost before = entries@;
                        entries.push((seg.clone(), ConfigValue::Section(new_child)));
                        proof {
                            assert(entries@.drop_last() =~= before);
                            assert(section_model(entries@.drop_last()) == m0);
                            assert(entries@.last().0@ == path[0]);
                            assert(entries@.last().1.model() == SpecValue::Section(cm2));
                            assert(section_model(entries@) == m0.insert(
                                path[0],
                                SpecValue::Section(cm2),
                            ));
                            assert(spec_insert_path(m0, path, value@) == Ok::<_, SpecError>(
                                section_model(entries@),
                            ));
                        }
                        Ok(entries)
                    },
                }
            },
        }
    }
}

} // verus!
