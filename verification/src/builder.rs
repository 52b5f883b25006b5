//! The tree builder: folds raw `key = value` lines into a configuration
//! tree, validating each leaf against the schema as it goes.

use vstd::prelude::*;
use crate::error::{ConfigError, SpecError};
use crate::schema::{Schema, type_accepts, validate_type};
use crate::text::{
    dot_segments, find_char, first_index_of, lemma_first_index_of, split_key, trim_str, trimmed,
};
use crate::text::{lemma_dot_segments_len, lemma_dot_segments_no_dot};
use crate::value::{
    insert_path, is_path_prefix, lemma_insert_path_found, lemma_insert_path_preserves,
    path_lookup, section_at, section_model, section_wf, spec_insert_path, ConfigValue, SpecValue,
};

verus! {

/// Whether a config line is skipped as blank or comment.
pub open spec fn line_ignored(line: Seq<char>) -> bool {
    let t = trimmed(line);
    t.len() == 0 || t[0] == '#' || t[0] == ';'
}

/// The `key = value` assignment a line carries: the trimmed text on either
/// side of the first `=`. Blank lines, comments, and lines without `=`
/// carry none.
pub open spec fn line_assignment(line: Seq<char>) -> Option<(Seq<char>, Seq<char>)> {
    if line_ignored(line) {
        None
    } else {
        match first_index_of(line, '=') {
            None => None,
            Some(i) => Some(
                (
                    trimmed(line.subrange(0, i)),
                    trimmed(line.subrange(i + 1, line.len() as int)),
                ),
            ),
        }
    }
}

/// One line folded into the tree: insert the assignment along its dotted
/// path, then check the value against the schema's declared type for the
/// full literal key. Either failure aborts the build.
pub open spec fn spec_build_step(
    m: Map<Seq<char>, SpecValue>,
    line: Seq<char>,
    schema: Map<Seq<char>, Seq<char>>,
) -> Result<Map<Seq<char>, SpecValue>, SpecError> {
    match line_assignment(line) {
        None => Ok(m),
        Some(kv) => match spec_insert_path(m, dot_segments(kv.0), kv.1) {
            Err(e) => Err(e),
            Ok(m2) => if schema.contains_key(kv.0) && !type_accepts(schema[kv.0], kv.1) {
                Err(
                    SpecError::SchemaValidationFailure {
                        key: kv.0,
                        declared_type: schema[kv.0],
                    },
                )
            } else {
                Ok(m2)
            },
        },
    }
}

/// The tree described by a sequence of config lines under a schema: the
/// lines folded in order into an initially empty root section, stopping at
/// the first failure.
pub open spec fn spec_build(lines: Seq<Seq<char>>, schema: Map<Seq<char>, Seq<char>>) -> Result<
    Map<Seq<char>, SpecValue>,
    SpecError,
>
    decreases lines.len(),
{
    if lines.len() == 0 {
        Ok(Map::empty())
    } else {
        match spec_build(lines.drop_last(), schema) {
            Err(e) => Err(e),
            Ok(m) => spec_build_step(m, lines.last(), schema),
        }
    }
}

/// Once a prefix of the lines fails, the whole build fails the same way.
pub proof fn lemma_build_error_persists(
    lines: Seq<Seq<char>>,
    schema: Map<Seq<char>, Seq<char>>,
    i: int,
    e: SpecError,
)
    requires
        0 <= i <= lines.len(),
        spec_build(lines.subrange(0, i), schema) == Err::<Map<Seq<char>, SpecValue>, _>(e),
    ensures
        spec_build(lines, schema) == Err::<Map<Seq<char>, SpecValue>, _>(e),
    decreases lines.len() - i,
{
    if i == lines.len() {
        assert(lines.subrange(0, i) =~= lines);
    } else {
        let pre2 = lines.subrange(0, i + 1);
        assert(pre2.drop_last() =~= lines.subrange(0, i));
        lemma_build_error_persists(lines, schema, i + 1, e);
    }
}

/// The model the optional schema stands for: an absent schema validates
/// nothing, like an empty mapping.
pub open spec fn schema_map_of(schema: Option<&Schema>) -> Map<Seq<char>, Seq<char>> {
    match schema {
        Some(s) => s.model(),
        None => Map::empty(),
    }
}

/// Builds the configuration tree from raw text lines.
///
/// Every line is either skipped (blank, comment, or without `=`) or carries
/// one assignment, which is inserted along its dot-separated path; the full
/// literal key is looked up in the schema and the value validated against
/// the declared type. The first structural conflict or validation failure
/// aborts the whole build with that error.
pub fn build(lines: &Vec<String>, schema: Option<&Schema>) -> (r: Result<
    ConfigValue,
    ConfigError,
>)
    requires
        match schema {
            Some(s) => s.wf(),
            None => true,
        },
    ensures
        match r {
            Ok(tree) => tree.wf() && (tree.model() matches SpecValue::Section(m) && spec_build(
                lines.deep_view(),
                schema_map_of(schema),
            ) == Ok::<_, SpecError>(m)),
            Err(e) => spec_build(lines.deep_view(), schema_map_of(schema)) == Err::<
                Map<Seq<char>, SpecValue>,
                _,
            >(e.model()),
        },
{
    let ghost ldv = lines.deep_view();
    let ghost sm = schema_map_of(schema);
    let mut root: Vec<(String, ConfigValue)> = Vec::new();
    proof {
        assert(ldv.subrange(0, 0) =~= Seq::<Seq<char>>::empty());
        assert(root@ =~= Seq::<(String, ConfigValue)>::empty());
        assert(section_model(root@) =~= Map::<Seq<char>, SpecValue>::empty());
    }
    let mut i: usize = 0;
    while i < lines.len()
        invariant
            0 <= i <= lines@.len(),
            ldv == lines.deep_view(),
            ldv.len() == lines@.len(),
            sm == schema_map_of(schema),
            match schema {
                Some(s) => s.wf(),
                None => true,
            },
            section_wf(root@),
            spec_build(ldv.subrange(0, i as int), sm) == Ok::<_, SpecError>(section_model(root@)),
        decreases lines@.len() - i,
    {
        let ghost pre = ldv.subrange(0, i as int);
        let ghost pre2 = ldv.subrange(0, i as int + 1);
        proof {
            assert(pre2.drop_last() =~= pre);
            assert(pre2.last() == ldv[i as int]);
            assert(ldv[i as int] == lines@[i as int]@);
        }
        let line: &String = &lines[i];
        let t: &str = trim_str(line.as_str());
        let skip_it: bool = if t.unicode_len() == 0 {
            true
        } else {
            let c: char = t.get_char(0);
            c == '#' || c == ';'
        };
        if !skip_it {
            let n: usize = line.as_str().unicode_len();
            match find_char(line.as_str(), '=') {
                None => {
                    proof {
                        assert(line_assignment(ldv[i as int]) is None);
                    }
                },
                Some(p) => {
                    proof {
                        lemma_first_index_of(lines@[i as int]@, '=');
                    }
                    let key: &str = trim_str(line.as_str().substring_char(0, p));
                    let value: &str = trim_str(line.as_str().substring_char(p + 1, n));
                    proof {
                        assert(line_assignment(ldv[i as int]) == Some((key@, value@)));
                    }
                    let segs: Vec<String> = split_key(key);
                    proof {
                        assert(segs.deep_view().skip(0) =~= segs.deep_view());
                    }
                    match insert_path(root, &segs, 0, value) {
                        Err(e) => {
                            proof {
                                assert(spec_build(pre2, sm) == Err::<
                                    Map<Seq<char>, SpecValue>,
                                    _,
                                >(e.model()));
                                lemma_build_error_persists(ldv, sm, i as int + 1, e.model());
                            }
                            return Err(e);
                        },
                        Ok(new_root) => {
                            root = new_root;
                        },
                    }
                    if let Some(sch) = schema {
                        match sch.get(key) {
                            Some(declared) => {
                                let declared: String = declared.clone();
                                match validate_type(key, value, declared.as_str()) {
                                    Ok(_) => {},
                                    Err(e) => {
                                        proof {
                                            assert(spec_build(pre2, sm) == Err::<
                                                Map<Seq<char>, SpecValue>,
                                                _,
                                            >(e.model()));
                                            lemma_build_error_persists(
                                                ldv,
                                                sm,
                                                i as int + 1,
                                                e.model(),
                                            );
                                        }
                                        return Err(e);
                                    },
                                }
                            },
                            None => {},
                        }
                    }
                },
            }
        }
        i = i + 1;
    }
    proof {
        assert(ldv.subrange(0, ldv.len() as int) =~= ldv);
    }
    Ok(ConfigValue::Section(root))
}

/// The build is a function of the line text and the schema alone: any two
/// trees built from the same lines under the same schema have the same
/// abstract value, whatever order their sections store their entries in.
pub proof fn lemma_build_deterministic(
    lines: Seq<Seq<char>>,
    schema: Map<Seq<char>, Seq<char>>,
    m1: Map<Seq<char>, SpecValue>,
    m2: Map<Seq<char>, SpecValue>,
)
    requires
        spec_build(lines, schema) == Ok::<_, SpecError>(m1),
        spec_build(lines, schema) == Ok::<_, SpecError>(m2),
    ensures
        m1 == m2,
{
}

/// A blank or comment line leaves the tree of one step unchanged.
pub proof fn lemma_ignored_line_step(
    m: Map<Seq<char>, SpecValue>,
    line: Seq<char>,
    schema: Map<Seq<char>, Seq<char>>,
)
    requires
        line_ignored(line),
    ensures
        spec_build_step(m, line, schema) == Ok::<_, SpecError>(m),
{
}

/// A blank or comment line contributes nothing wherever it stands: the
/// build of the lines with it inserted equals the build without it.
pub proof fn lemma_ignored_line_dropped(
    lines: Seq<Seq<char>>,
    schema: Map<Seq<char>, Seq<char>>,
    pos: int,
    line: Seq<char>,
)
    requires
        0 <= pos <= lines.len(),
        line_ignored(line),
    ensures
        spec_build(lines.insert(pos, line), schema) == spec_build(lines, schema),
    decreases lines.len(),
{
    let lines2 = lines.insert(pos, line);
    assert(lines2.len() == lines.len() + 1);
    if pos == lines.len() {
        assert(lines2.drop_last() =~= lines);
        assert(lines2.last() == line);
    } else {
        assert(lines2.drop_last() =~= lines.drop_last().insert(pos, line));
        assert(lines2.last() == lines.last());
        lemma_ignored_line_dropped(lines.drop_last(), schema, pos, line);
    }
}

/// Whether a line assigns a key whose segment path is a prefix of `path`
/// (the whole of `path` included): such a line overwrites something at or
/// above `path`.
pub open spec fn assigns_into(line: Seq<char>, path: Seq<Seq<char>>) -> bool {
    line_assignment(line) matches Some(kv) && is_path_prefix(dot_segments(kv.0), path)
}

/// An assignment whose dotted path no later line re-targets survives to the
/// final tree: the scalar, holding the trimmed right-hand side, stands at
/// the full path, and a section stands at every proper prefix of the path.
pub proof fn lemma_assignment_survives(
    lines: Seq<Seq<char>>,
    schema: Map<Seq<char>, Seq<char>>,
    j: int,
    key: Seq<char>,
    value: Seq<char>,
)
    requires
        0 <= j < lines.len(),
        spec_build(lines, schema) is Ok,
        line_assignment(lines[j]) == Some((key, value)),
        forall|j2: int|
            j < j2 < lines.len() ==> !assigns_into(#[trigger] lines[j2], dot_segments(key)),
    ensures
        path_lookup((spec_build(lines, schema))->Ok_0, dot_segments(key)) == Some(
            SpecValue::Scalar(value),
        ),
        forall|d: int|
            0 < d < dot_segments(key).len() ==> section_at(
                (spec_build(lines, schema))->Ok_0,
                #[trigger] dot_segments(key).take(d),
            ),
    decreases lines.len(),
{
    let segs = dot_segments(key);
    lemma_dot_segments_len(key);
    let prev = spec_build(lines.drop_last(), schema);
    assert(prev is Ok);
    let m = prev->Ok_0;
    if j == lines.len() - 1 {
        assert(lines.last() == lines[j]);
        assert(spec_insert_path(m, segs, value) is Ok);
        lemma_insert_path_found(m, segs, value);
    } else {
        assert(lines.drop_last()[j] == lines[j]);
        lemma_assignment_survives(lines.drop_last(), schema, j, key, value);
        match line_assignment(lines.last()) {
            None => {},
            Some(kv2) => {
                let segs2 = dot_segments(kv2.0);
                lemma_dot_segments_len(kv2.0);
                assert(!assigns_into(lines[lines.len() - 1], segs));
                assert(spec_insert_path(m, segs2, kv2.1) is Ok);
                lemma_insert_path_preserves(m, segs2, kv2.1, segs, value);
            },
        }
    }
}

/// A key without dots whose path no later line re-targets appears as a
/// top-level scalar holding the trimmed right-hand side of its last
/// assignment; an earlier scalar at the same key is simply overwritten.
pub proof fn lemma_top_level_scalar(
    lines: Seq<Seq<char>>,
    schema: Map<Seq<char>, Seq<char>>,
    j: int,
    key: Seq<char>,
    value: Seq<char>,
)
    requires
        0 <= j < lines.len(),
        spec_build(lines, schema) is Ok,
        line_assignment(lines[j]) == Some((key, value)),
        forall|k: int| 0 <= k < key.len() ==> key[k] != '.',
        forall|j2: int|
            j < j2 < lines.len() ==> !assigns_into(#[trigger] lines[j2], dot_segments(key)),
    ensures
        (spec_build(lines, schema))->Ok_0.contains_key(key),
        (spec_build(lines, schema))->Ok_0[key] == SpecValue::Scalar(value),
{
    lemma_dot_segments_no_dot(key);
    lemma_assignment_survives(lines, schema, j, key, value);
    let m = (spec_build(lines, schema))->Ok_0;
    assert(dot_segments(key) == seq![key]);
    assert(dot_segments(key)[0] == key);
    assert(path_lookup(m, dot_segments(key)) == Some(SpecValue::Scalar(value)));
}

} // verus!
