//! Output schemas: a tree of base descriptions from which an encoder is built.

use crate::bignum::bit_length;
use crate::error::{PassacreError, PassacreErrorKind};
use crate::multibase::{Base, MultiBase, base_equiv, strings_view};
use vstd::prelude::*;

verus! {

pub struct Schema {
    pub value: Vec<SchemaBase>,
    pub shuffle: bool,
}

pub enum SchemaBase {
    /// A base of the given strings.
    Choices(Vec<String>),
    /// A base of the words of a named word list.
    WellKnown(String),
    Separator(String),
    Subschema(Schema),
    /// Another position bound to the base of the earlier position given.
    SameAs(u32),
}

/// A named word list.
pub struct WordList {
    pub name: String,
    pub words: Vec<String>,
}

/// The first word list named `name`.
pub open spec fn find_list(lists: Seq<WordList>, name: Seq<char>) -> Option<WordList>
    decreases lists.len(),
{
    if lists.len() == 0 {
        None
    } else if lists[0].name@ == name {
        Some(lists[0])
    } else {
        find_list(lists.drop_first(), name)
    }
}

/// Whether the schema builds: no empty alphabet, no unknown or empty word
/// list, and every `SameAs` names an earlier position.
pub open spec fn schema_valid(s: Schema, lists: Seq<WordList>) -> bool
    decreases s, s.value@.len() + 1,
{
    valid_upto(s, lists, s.value@.len())
}

pub open spec fn valid_upto(s: Schema, lists: Seq<WordList>, k: nat) -> bool
    decreases s, k,
{
    if k == 0 {
        true
    } else if k <= s.value@.len() {
        valid_upto(s, lists, (k - 1) as nat) && entry_valid(s.value@[k - 1], (k - 1) as nat, lists)
    } else {
        false
    }
}

pub open spec fn entry_valid(e: SchemaBase, i: nat, lists: Seq<WordList>) -> bool
    decreases e,
{
    match e {
        SchemaBase::Choices(c) => c@.len() > 0,
        SchemaBase::WellKnown(name) => match find_list(lists, name@) {
            Some(w) => w.words@.len() > 0,
            None => false,
        },
        SchemaBase::Separator(_) => true,
        SchemaBase::Subschema(sub) => schema_valid(sub, lists),
        SchemaBase::SameAs(j) => j < i,
    }
}

/// `m` is an encoder built from `s`: one position per entry, each bound to
/// the base the entry describes (or sharing the earlier position it names).
pub open spec fn describes(m: MultiBase, s: Schema, lists: Seq<WordList>) -> bool
    decreases s, s.value@.len() + 1,
{
    &&& m.wf()
    &&& m.n_positions() == s.value@.len()
    &&& m.shuffled() == s.shuffle
    &&& m.word_list() is None
    &&& describes_upto(m, s, lists, s.value@.len())
}

pub open spec fn describes_upto(m: MultiBase, s: Schema, lists: Seq<WordList>, k: nat) -> bool
    decreases s, k,
{
    if k == 0 {
        true
    } else if k <= s.value@.len() {
        describes_upto(m, s, lists, (k - 1) as nat) && entry_describes(
            m,
            k - 1,
            s.value@[k - 1],
            lists,
        )
    } else {
        false
    }
}

/// Position `i` shares the stored base of every earlier position whose base
/// equals `b`.
pub open spec fn shares_earlier(m: MultiBase, i: int, b: Base) -> bool {
    forall|j: int|
        0 <= j < i && #[trigger] base_equiv(m.position_base(j), b) ==> m.entry_of(i) == m.entry_of(j)
}

/// Position `i` of `m` is bound as entry `e` says: to an equal base, sharing
/// the stored base of any earlier position with an equal base, or to the
/// stored base of the earlier position that `SameAs` names.
pub open spec fn entry_describes(m: MultiBase, i: int, e: SchemaBase, lists: Seq<WordList>) -> bool
    decreases e,
{
    match e {
        SchemaBase::Choices(c) => base_equiv(m.position_base(i), Base::Choices(c))
            && shares_earlier(m, i, Base::Choices(c)),
        SchemaBase::WellKnown(name) => match find_list(lists, name@) {
            Some(w) => base_equiv(m.position_base(i), Base::Choices(w.words)) && shares_earlier(
                m,
                i,
                Base::Choices(w.words),
            ),
            None => false,
        },
        SchemaBase::Separator(t) => base_equiv(m.position_base(i), Base::Separator(t))
            && shares_earlier(m, i, Base::Separator(t)),
        SchemaBase::Subschema(sub) => exists|n: MultiBase|
            describes(n, sub, lists) && #[trigger] base_equiv(
                m.position_base(i),
                Base::NestedBase(n),
            ) && shares_earlier(m, i, Base::NestedBase(n)),
        SchemaBase::SameAs(j) => j < i && m.entry_of(i) == m.entry_of(j as int),
    }
}

proof fn lemma_valid_prefix(s: Schema, lists: Seq<WordList>, j: nat, k: nat)
    requires
        k <= j,
        valid_upto(s, lists, j),
    ensures
        valid_upto(s, lists, k),
    decreases j,
{
    if k < j {
        lemma_valid_prefix(s, lists, (j - 1) as nat, k);
    }
}

proof fn lemma_describes_grow(
    a: MultiBase,
    b: MultiBase,
    s: Schema,
    lists: Seq<WordList>,
    k: nat,
)
    requires
        describes_upto(a, s, lists, k),
        k <= a.n_positions(),
        forall|i: int|
            0 <= i < a.n_positions() ==> b.position_base(i) == a.position_base(i) && b.entry_of(i)
                == a.entry_of(i),
    ensures
        describes_upto(b, s, lists, k),
    decreases k,
{
    if k > 0 {
        lemma_describes_grow(a, b, s, lists, (k - 1) as nat);
        let i = k - 1;
        assert(entry_describes(a, i, s.value@[i], lists));
        match s.value@[i] {
            SchemaBase::Subschema(sub) => {
                assert(exists|n: MultiBase|
                    describes(n, sub, lists) && #[trigger] base_equiv(
                        a.position_base(i),
                        Base::NestedBase(n),
                    ) && shares_earlier(a, i, Base::NestedBase(n)));
                let n = choose|n: MultiBase|
                    describes(n, sub, lists) && #[trigger] base_equiv(
                        a.position_base(i),
                        Base::NestedBase(n),
                    ) && shares_earlier(a, i, Base::NestedBase(n));
                assert(base_equiv(b.position_base(i), Base::NestedBase(n)));
                assert(shares_earlier(b, i, Base::NestedBase(n)));
            },
            _ => {},
        }
        assert(b.position_base(i) == a.position_base(i) && b.entry_of(i) == a.entry_of(i));
        assert(entry_describes(b, i, s.value@[i], lists));
    }
}

fn clone_strings(v: &Vec<String>) -> (r: Vec<String>)
    ensures
        r@ == v@,
{
    let mut r: Vec<String> = Vec::new();
    let mut i: usize = 0;
    while i < v.len()
        invariant
            i <= v@.len(),
            r@ =~= v@.subrange(0, i as int),
        decreases v@.len() - i,
    {
        r.push(v[i].clone());
        i = i + 1;
    }
    assert(r@ =~= v@);
    r
}

/// The words of the first list named `name`, if any.
fn find_words(lists: &Vec<WordList>, name: &String) -> (r: Option<Vec<String>>)
    ensures
        match find_list(lists@, name@) {
            Some(w) => r matches Some(v) && v@ == w.words@,
            None => r is None,
        },
{
    assert(lists@.subrange(0, lists@.len() as int) =~= lists@);
    let mut i: usize = 0;
    while i < lists.len()
        invariant
            i <= lists@.len(),
            find_list(lists@, name@) == find_list(lists@.subrange(i as int, lists@.len() as int), name@),
        decreases lists@.len() - i,
    {
        let ghost rest = lists@.subrange(i as int, lists@.len() as int);
        assert(rest.drop_first() =~= lists@.subrange(i as int + 1, lists@.len() as int));
        if lists[i].name == *name {
            return Some(clone_strings(&lists[i].words));
        }
        i = i + 1;
    }
    None
}

/// Builds the encoder that `schema` describes, looking named word lists up
/// in `lists`; `UserError` where the schema is not valid.
pub fn multibase_of_schema(schema: &Schema, lists: &Vec<WordList>) -> (r: Result<MultiBase, PassacreError>)
    ensures
        r is Ok <==> schema_valid(*schema, lists@),
        r matches Ok(m) ==> describes(m, *schema, lists@),
        r matches Err(e) ==> e.kind == PassacreErrorKind::UserError,
    decreases schema,
{
    let mut ret = MultiBase::new();
    let mut i: usize = 0;
    while i < schema.value.len()
        invariant
            i <= schema.value@.len(),
            ret.wf(),
            ret.n_positions() == i,
            !ret.shuffled(),
            ret.word_list() is None,
            valid_upto(*schema, lists@, i as nat),
            describes_upto(ret, *schema, lists@, i as nat),
        decreases schema.value@.len() - i,
    {
        let ghost before = ret;
        let res = match &schema.value[i] {
            SchemaBase::SameAs(j) => ret.repeat_base(*j as usize),
            SchemaBase::Choices(c) => {
                let b = Base::Choices(clone_strings(c));
                ret.add_base(b)
            },
            SchemaBase::WellKnown(name) => match find_words(lists, name) {
                Some(words) => {
                    let ghost w = words;
                    let res = ret.add_base(Base::Choices(words));
                    proof {
                        assert(strings_view(w@) == strings_view(
                            find_list(lists@, name@)->Some_0.words@,
                        ));
                    }
                    res
                },
                None => Err(PassacreErrorKind::UserError.to_error()),
            },
            SchemaBase::Separator(t) => ret.add_base(Base::Separator(t.clone())),
            SchemaBase::Subschema(sub) => match multibase_of_schema(sub, lists) {
                Ok(n) => {
                    let ghost nested = n;
                    proof {
                        n.lemma_length_positive();
                    }
                    let res = ret.add_base(Base::NestedBase(n));
                    proof {
                        if res is Ok {
                            assert(base_equiv(
                                ret.position_base(i as int),
                                Base::NestedBase(nested),
                            ));
                        }
                    }
                    res
                },
                Err(e) => Err(e),
            },
        };
        match res {
            Ok(()) => {},
            Err(e) => {
                proof {
                    assert(!entry_valid(schema.value@[i as int], i as nat, lists@));
                    if schema_valid(*schema, lists@) {
                        lemma_valid_prefix(*schema, lists@, schema.value@.len(), i as nat + 1);
                    }
                }
                return Err(e);
            },
        }
        proof {
            lemma_describes_grow(before, ret, *schema, lists@, i as nat);
            assert(entry_valid(schema.value@[i as int], i as nat, lists@));
            assert(entry_describes(ret, i as int, schema.value@[i as int], lists@));
        }
        i = i + 1;
    }
    if schema.shuffle {
        let ghost before = ret;
        ret.enable_shuffle();
        proof {
            lemma_describes_grow(before, ret, *schema, lists@, i as nat);
        }
    }
    Ok(ret)
}

/// The service that derives secrets and reports the strength of schemas.
pub struct StandardToplevel;

impl StandardToplevel {
    /// The entropy, in bits, of the encoder that `schema` describes.
    pub fn entropy_bits(&self, schema: &Schema, lists: &Vec<WordList>) -> (r: Result<u64, PassacreError>)
        ensures
            r is Ok <==> schema_valid(*schema, lists@),
            r matches Ok(bits) ==> exists|m: MultiBase|
                describes(m, *schema, lists@) && bits == bit_length(#[trigger] m.length()),
            r matches Err(e) ==> e.kind == PassacreErrorKind::UserError,
    {
        let m = multibase_of_schema(schema, lists)?;
        Ok(m.entropy_bits())
    }
}

} // verus!
