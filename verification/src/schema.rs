//! The flat schema: a mapping from literal key text to a declared type name,
//! parsed from `key -> type` lines, and the validation of leaf values
//! against it.

use vstd::prelude::*;
use crate::error::{ConfigError, SpecError};
use crate::literals::{is_bool_literal, is_integer_literal};
use crate::literals::{is_bool_value, is_integer_value};
use crate::text::{str_eq, trim_str, trimmed};

verus! {

/// The position of the first `->` in `s`, if any.
pub open spec fn arrow_index(s: Seq<char>) -> Option<int>
    decreases s.len(),
{
    if s.len() < 2 {
        None
    } else if s[0] == '-' && s[1] == '>' {
        Some(0int)
    } else {
        match arrow_index(s.drop_first()) {
            None => None,
            Some(i) => Some(i + 1),
        }
    }
}

/// What `arrow_index` returns: the first position at which `->` stands.
pub proof fn lemma_arrow_index(s: Seq<char>)
    ensures
        match arrow_index(s) {
            None => forall|k: int| 0 <= k < s.len() - 1 ==> !((#[trigger] s[k]) == '-' && s[k + 1] == '>'),
            Some(i) => 0 <= i < s.len() - 1 && s[i] == '-' && s[i + 1] == '>' && (forall|k: int|
                0 <= k < i ==> !((#[trigger] s[k]) == '-' && s[k + 1] == '>')),
        },
    decreases s.len(),
{
    if s.len() >= 2 && !(s[0] == '-' && s[1] == '>') {
        let rest = s.drop_first();
        lemma_arrow_index(rest);
        assert(forall|k: int| 0 <= k < rest.len() ==> rest[k] == s[k + 1]);
        match arrow_index(rest) {
            None => {
                assert forall|k: int| 0 <= k < s.len() - 1 implies !((#[trigger] s[k]) == '-' && s[k
                    + 1] == '>') by {
                    if k > 0 {
                        assert(!(rest[k - 1] == '-' && rest[k] == '>'));
                    }
                }
            },
            Some(i) => {
                assert forall|k: int| 0 <= k < i + 1 implies !((#[trigger] s[k]) == '-' && s[k + 1]
                    == '>') by {
                    if k > 0 {
                        assert(!(rest[k - 1] == '-' && rest[k] == '>'));
                    }
                }
            },
        }
    }
}

/// Finds the first `->` in `s`.
fn find_arrow(s: &str) -> (r: Option<usize>)
    ensures
        match r {
            None => arrow_index(s@) is None,
            Some(i) => arrow_index(s@) == Some(i as int),
        },
{
    let n: usize = s.unicode_len();
    if n < 2 {
        proof {
            lemma_arrow_index(s@);
        }
        return None;
    }
    let mut i: usize = 0;
    while i < n - 1
        invariant
            0 <= i <= n - 1,
            n == s@.len(),
            n >= 2,
            forall|k: int| 0 <= k < i ==> !((#[trigger] s@[k]) == '-' && s@[k + 1] == '>'),
        decreases n - i,
    {
        if s.get_char(i) == '-' && s.get_char(i + 1) == '>' {
            proof {
                lemma_arrow_index(s@);
            }
            return Some(i);
        }
        i = i + 1;
    }
    proof {
        lemma_arrow_index(s@);
    }
    None
}

/// Whether a schema line is skipped as blank or comment.
pub open spec fn schema_line_ignored(line: Seq<char>) -> bool {
    let t = trimmed(line);
    t.len() == 0 || t[0] == '#' || t[0] == ';'
}

/// Whether a schema line is malformed: neither blank nor comment, but
/// without the `->` separator. Such a line is skipped with a warning.
pub open spec fn schema_line_malformed(line: Seq<char>) -> bool {
    !schema_line_ignored(line) && arrow_index(line) is None
}

/// One schema line folded into the mapping: `key -> type` inserts the
/// trimmed key and type; anything else leaves the mapping unchanged.
pub open spec fn spec_schema_step(
    m: Map<Seq<char>, Seq<char>>,
    line: Seq<char>,
) -> Map<Seq<char>, Seq<char>> {
    if schema_line_ignored(line) {
        m
    } else {
        match arrow_index(line) {
            None => m,
            Some(i) => m.insert(
                trimmed(line.subrange(0, i)),
                trimmed(line.subrange(i + 2, line.len() as int)),
            ),
        }
    }
}

/// The mapping described by a sequence of schema lines; a later line for the
/// same key wins.
pub open spec fn spec_schema(lines: Seq<Seq<char>>) -> Map<Seq<char>, Seq<char>>
    decreases lines.len(),
{
    if lines.len() == 0 {
        Map::empty()
    } else {
        spec_schema_step(spec_schema(lines.drop_last()), lines.last())
    }
}

/// The malformed lines, in order: these are reported, not fatal.
pub open spec fn spec_schema_skipped(lines: Seq<Seq<char>>) -> Seq<Seq<char>>
    decreases lines.len(),
{
    if lines.len() == 0 {
        Seq::empty()
    } else if schema_line_malformed(lines.last()) {
        spec_schema_skipped(lines.drop_last()).push(lines.last())
    } else {
        spec_schema_skipped(lines.drop_last())
    }
}

/// The map described by the schema's entry list.
pub open spec fn schema_model(entries: Seq<(String, String)>) -> Map<Seq<char>, Seq<char>>
    decreases entries,
{
    if entries.len() == 0 {
        Map::empty()
    } else {
        schema_model(entries.drop_last()).insert(entries.last().0@, entries.last().1@)
    }
}

/// Unique keys in the schema's entry list.
pub open spec fn schema_unique(entries: Seq<(String, String)>) -> bool {
    forall|i: int, j: int| 0 <= i < j < entries.len() ==> entries[i].0@ != entries[j].0@
}

/// A schema's model contains exactly the keys of its entries.
pub proof fn lemma_schema_model_keys(entries: Seq<(String, String)>)
    ensures
        forall|k: Seq<char>|
            #[trigger] schema_model(entries).contains_key(k) <==> (exists|i: int|
                0 <= i < entries.len() && (#[trigger] entries[i]).0@ == k),
    decreases entries.len(),
{
    if entries.len() > 0 {
        lemma_schema_model_keys(entries.drop_last());
        assert forall|k: Seq<char>| #[trigger] schema_model(entries).contains_key(k) implies (
        exists|i: int| 0 <= i < entries.len() && (#[trigger] entries[i]).0@ == k) by {
            if k == entries.last().0@ {
                assert(entries[entries.len() - 1].0@ == k);
            } else {
                assert(schema_model(entries.drop_last()).contains_key(k));
                let i = choose|i: int|
                    0 <= i < entries.drop_last().len() && (#[trigger] entries.drop_last()[i]).0@
                        == k;
                assert(entries.drop_last()[i] == entries[i]);
                assert(entries[i].0@ == k);
            }
        }
        assert forall|k: Seq<char>| (exists|i: int|
            0 <= i < entries.len() && (#[trigger] entries[i]).0@ == k) implies #[trigger]
        schema_model(entries).contains_key(k) by {
            let i = choose|i: int| 0 <= i < entries.len() && (#[trigger] entries[i]).0@ == k;
            if i < entries.len() - 1 {
                assert(entries.drop_last()[i] == entries[i]);
                assert(entries.drop_last()[i].0@ == k);
                assert(schema_model(entries.drop_last()).contains_key(k));
            }
        }
    }
}

/// With unique keys, the model maps each entry's key to that entry's type.
pub proof fn lemma_schema_model_at(entries: Seq<(String, String)>, j: int)
    requires
        schema_unique(entries),
        0 <= j < entries.len(),
    ensures
        schema_model(entries).contains_key(entries[j].0@),
        schema_model(entries)[entries[j].0@] == entries[j].1@,
    decreases entries.len(),
{
    if j < entries.len() - 1 {
        assert(entries.drop_last()[j] == entries[j]);
        lemma_schema_model_at(entries.drop_last(), j);
        assert(entries.last().0@ != entries[j].0@);
    }
}

/// Replacing the entry at `j` by one with the same key updates the model at
/// that key and nothing else.
pub proof fn lemma_schema_model_update(
    entries: Seq<(String, String)>,
    j: int,
    key: String,
    v: String,
)
    requires
        schema_unique(entries),
        0 <= j < entries.len(),
        entries[j].0@ == key@,
    ensures
        schema_model(entries.update(j, (key, v))) == schema_model(entries).insert(key@, v@),
    decreases entries.len(),
{
    let upd = entries.update(j, (key, v));
    if j == entries.len() - 1 {
        assert(upd.drop_last() =~= entries.drop_last());
        assert(schema_model(upd) =~= schema_model(entries).insert(key@, v@));
    } else {
        assert(upd.drop_last() =~= entries.drop_last().update(j, (key, v)));
        assert(entries.drop_last()[j] == entries[j]);
        lemma_schema_model_update(entries.drop_last(), j, key, v);
        assert(upd.last() == entries.last());
        assert(entries.last().0@ != key@);
        assert(schema_model(upd) =~= schema_model(entries).insert(key@, v@));
    }
}

/// A flat mapping from literal key text (dots and all) to a declared type
/// name. Lookups match the whole key string; there is no structural descent.
pub struct Schema {
    entries: Vec<(String, String)>,
}

impl Schema {
    /// The abstract mapping this schema holds.
    pub closed spec fn model(self) -> Map<Seq<char>, Seq<char>> {
        schema_model(self.entries@)
    }

    /// Each key occurs at most once.
    pub closed spec fn wf(self) -> bool {
        schema_unique(self.entries@)
    }

    /// An empty schema: nothing is validated.
    pub fn new() -> (s: Schema)
        ensures
            s.wf(),
            s.model() == Map::<Seq<char>, Seq<char>>::empty(),
    {
        let s = Schema { entries: Vec::new() };
        proof {
            assert(s.entries@ =~= Seq::<(String, String)>::empty());
            assert(s.model() =~= Map::<Seq<char>, Seq<char>>::empty());
        }
        s
    }

    /// Declares `declared` as the type of `key`, replacing any earlier
    /// declaration for the same key.
    pub fn set(&mut self, key: String, declared: String)
        requires
            old(self).wf(),
        ensures
            final(self).wf(),
            final(self).model() == old(self).model().insert(key@, declared@),
    {
        let ghost before = self.entries@;
        proof {
            lemma_schema_model_keys(before);
        }
        let mut j: usize = 0;
        while j < self.entries.len()
            invariant
                0 <= j <= self.entries@.len(),
                self.entries@ == before,
                before == old(self).entries@,
                schema_unique(before),
                forall|i: int| 0 <= i < j ==> (#[trigger] before[i]).0@ != key@,
            decreases self.entries@.len() - j,
        {
            if str_eq(self.entries[j].0.as_str(), key.as_str()) {
                let ghost pair = (key, declared);
                self.entries[j] = (key, declared);
                proof {
                    assert(self.entries@ =~= before.update(j as int, pair));
                    lemma_schema_model_update(before, j as int, pair.0, pair.1);
                    assert forall|i1: int, j1: int|
                        0 <= i1 < j1 < self.entries@.len() implies self.entries@[i1].0@
                        != self.entries@[j1].0@ by {
                        assert(before[i1].0@ != before[j1].0@);
                    }
                }
                return ;
            }
            j = j + 1;
        }
        self.entries.push((key, declared));
        proof {
            assert(self.entries@.drop_last() =~= before);
            assert(schema_model(self.entries@) =~= schema_model(before).insert(key@, declared@));
        }
    }

    /// The declared type of `key`, if the schema names one.
    pub fn get<'a>(&'a self, key: &str) -> (r: Option<&'a String>)
        requires
            self.wf(),
        ensures
            match r {
                Some(d) => self.model().contains_key(key@) && d@ == self.model()[key@],
                None => !self.model().contains_key(key@),
            },
    {
        proof {
            lemma_schema_model_keys(self.entries@);
        }
        let mut j: usize = 0;
        while j < self.entries.len()
            invariant
                0 <= j <= self.entries@.len(),
                schema_unique(self.entries@),
                self.model() == schema_model(self.entries@),
                forall|i: int| 0 <= i < j ==> (#[trigger] self.entries@[i]).0@ != key@,
            decreases self.entries@.len() - j,
        {
            if str_eq(self.entries[j].0.as_str(), key) {
                proof {
                    lemma_schema_model_at(self.entries@, j as int);
                }
                return Some(&self.entries[j].1);
            }
            j = j + 1;
        }
        None
    }
}

/// Reads a schema from `key -> type` lines. Blank and comment lines are
/// skipped; a line without `->` is skipped and returned in the second
/// component so the caller can warn about it.
pub fn parse_schema(lines: &Vec<String>) -> (r: (Schema, Vec<String>))
    ensures
        r.0.wf(),
        r.0.model() == spec_schema(lines.deep_view()),
        r.1.deep_view() == spec_schema_skipped(lines.deep_view()),
{
    let ghost ldv = lines.deep_view();
    let mut schema = Schema::new();
    let mut skipped: Vec<String> = Vec::new();
    proof {
        assert(ldv.subrange(0, 0) =~= Seq::<Seq<char>>::empty());
        assert(skipped.deep_view() =~= Seq::<Seq<char>>::empty());
    }
    let mut i: usize = 0;
    while i < lines.len()
        invariant
            0 <= i <= lines@.len(),
            ldv == lines.deep_view(),
            ldv.len() == lines@.len(),
            schema.wf(),
            schema.model() == spec_schema(ldv.subrange(0, i as int)),
            skipped.deep_view() == spec_schema_skipped(ldv.subrange(0, i as int)),
        decreases lines@.len() - i,
    {
        let ghost pre = ldv.subrange(0, i as int);
        let ghost pre2 = ldv.subrange(0, i as int + 1);
        proof {
            assert(pre2.drop_last() =~= pre);
            assert(pre2.last() == ldv[i as int]);
            assert(ldv[i as int] == lines@[i as int]@);
        }
        let line: &String = &lines[i];
        let t: &str = trim_str(line.as_str());
        let skip_it: bool = if t.unicode_len() == 0 {
            true
        } else {
            let c: char = t.get_char(0);
            c == '#' || c == ';'
        };
        if !skip_it {
            let n: usize = line.as_str().unicode_len();
            match find_arrow(line.as_str()) {
                Some(p) => {
                    proof {
                        lemma_arrow_index(lines@[i as int]@);
                    }
                    let key: &str = trim_str(line.as_str().substring_char(0, p));
                    let declared: &str = trim_str(line.as_str().substring_char(p + 2, n));
                    schema.set(key.to_owned(), declared.to_owned());
                },
                None => {
                    let ghost sk = skipped.deep_view();
                    skipped.push(line.clone());
                    proof {
                        assert(skipped.deep_view() =~= sk.push(ldv[i as int]));
                    }
                },
            }
        }
        i = i + 1;
    }
    proof {
        assert(ldv.subrange(0, ldv.len() as int) =~= ldv);
    }
    (schema, skipped)
}

/// What each declared type accepts: `bool` and `integer` constrain the
/// form of the trimmed value, `String` and every unrecognized name accept
/// anything.
pub open spec fn type_accepts(declared: Seq<char>, value: Seq<char>) -> bool {
    if declared == "bool"@ {
        is_bool_literal(trimmed(value))
    } else if declared == "integer"@ {
        is_integer_literal(trimmed(value))
    } else {
        true
    }
}

/// Whether `value`'s text, once trimmed, matches the declared type.
pub fn check_type(declared: &str, value: &str) -> (b: bool)
    ensures
        b == type_accepts(declared@, value@),
{
    let t: &str = trim_str(value);
    if str_eq(declared, "bool") {
        is_bool_value(t)
    } else if str_eq(declared, "integer") {
        is_integer_value(t)
    } else {
        true
    }
}

/// A declared type other than `bool` and `integer` accepts every value:
/// validation never inspects the text.
pub proof fn lemma_unrecognized_type_accepts(declared: Seq<char>, value: Seq<char>)
    requires
        declared != "bool"@,
        declared != "integer"@,
    ensures
        type_accepts(declared, value),
{
}

/// The declared type `String` accepts every value, the empty text included.
pub proof fn lemma_string_type_accepts(value: Seq<char>)
    ensures
        type_accepts("String"@, value),
{
    reveal_strlit("String");
    reveal_strlit("bool");
    reveal_strlit("integer");
    assert("String"@.len() == 6 && "bool"@.len() == 4 && "integer"@.len() == 7);
}

/// Validates one leaf against its declared type; a mismatch is the fatal
/// schema validation error, naming the key and the declared type.
pub fn validate_type(key: &str, value: &str, schema_value: &str) -> (r: Result<(), ConfigError>)
    ensures
        match r {
            Ok(_) => type_accepts(schema_value@, value@),
            Err(e) => !type_accepts(schema_value@, value@) && e.model()
                == (SpecError::SchemaValidationFailure {
                key: key@,
                declared_type: schema_value@,
            }),
        },
{
    if check_type(schema_value, value) {
        Ok(())
    } else {
        Err(
            ConfigError::SchemaValidationFailure {
                key: key.to_owned(),
                declared_type: schema_value.to_owned(),
            },
        )
    }
}

} // verus!
