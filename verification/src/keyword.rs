use vstd::prelude::*;

verus! {

/// The closed set of shapes a directive's arguments can take.
#[derive(Debug)]
pub enum KeywordType {
    /// A boolean-like directive (`yes` / `no`).
    Flag(bool),
    /// A single scalar argument (a port, a path).
    SingleValue(String),
    /// An ordered list of arguments; order is semantically significant.
    MultiValue(Vec<String>),
    /// The keyword is recognized but carries no value in this snapshot.
    Absent,
}

/// Mathematical value of a `KeywordType`.
pub enum KwVal {
    Flag(bool),
    Single(Seq<char>),
    Multi(Seq<Seq<char>>),
    Absent,
}

/// Mathematical value of a `KeywordType`, as a function.
pub open spec fn kt_val(k: KeywordType) -> KwVal {
    match k {
        KeywordType::Flag(b) => KwVal::Flag(b),
        KeywordType::SingleValue(s) => KwVal::Single(s@),
        KeywordType::MultiValue(vs) => KwVal::Multi(vs.deep_view()),
        KeywordType::Absent => KwVal::Absent,
    }
}

impl View for KeywordType {
    type V = KwVal;

    open spec fn view(&self) -> KwVal {
        kt_val(*self)
    }
}

/// One keyword's value together with whether it is a daemon-supplied default
/// (`is_default = true`) or was explicitly declared by an administrator.
#[derive(Debug)]
pub struct SubContainer {
    pub value: KeywordType,
    pub is_default: bool,
}

/// Mathematical value of a `SubContainer`.
pub struct EntryVal {
    pub value: KwVal,
    pub is_default: bool,
}

impl View for SubContainer {
    type V = EntryVal;

    open spec fn view(&self) -> EntryVal {
        EntryVal { value: self.value@, is_default: self.is_default }
    }
}

/// How the diff classifies one keyword's change.
#[derive(Clone, Copy, PartialEq, Eq, Structural, Debug)]
pub enum UpdateKind {
    Add,
    Modify,
    Remove,
}

/// Shape-aware equality on keyword values: `MultiValue` compares as an
/// ordered sequence, and values of different shapes are never equal.
pub fn keyword_type_eq(a: &KeywordType, b: &KeywordType) -> (r: bool)
    ensures
        r == (a@ == b@),
{
    match a {
        KeywordType::Flag(x) => match b {
            KeywordType::Flag(y) => *x == *y,
            _ => false,
        },
        KeywordType::SingleValue(x) => match b {
            KeywordType::SingleValue(y) => *x == *y,
            _ => false,
        },
        KeywordType::MultiValue(x) => match b {
            KeywordType::MultiValue(y) => string_vec_eq(x, y),
            _ => false,
        },
        KeywordType::Absent => match b {
            KeywordType::Absent => true,
            _ => false,
        },
    }
}

/// Element-wise equality of two string lists, in order.
pub fn string_vec_eq(a: &Vec<String>, b: &Vec<String>) -> (r: bool)
    ensures
        r == (a.deep_view() == b.deep_view()),
{
    if a.len() != b.len() {
        proof {
            assert(a.deep_view().len() != b.deep_view().len());
        }
        return false;
    }
    let n = a.len();
    let mut i: usize = 0;
    while i < n
        invariant
            i <= n,
            forall|j: int| 0 <= j < i ==> a.deep_view()[j] == b.deep_view()[j],
        decreases n - i,
    {
        if a[i] != b[i] {
            proof {
                assert(a.deep_view()[i as int] != b.deep_view()[i as int]);
            }
            return false;
        }
        i += 1;
    }
    proof {
        assert(a.deep_view() =~= b.deep_view());
    }
    true
}

/// Equality of entries as the diff sees them: value equality alone;
/// defaultness affects classification, never value equality.
pub fn values_equal(a: &SubContainer, b: &SubContainer) -> (r: bool)
    ensures
        r == (a@.value == b@.value),
{
    keyword_type_eq(&a.value, &b.value)
}

/// Copy of a keyword value with the same mathematical value.
pub fn keyword_type_clone(v: &KeywordType) -> (r: KeywordType)
    ensures
        r@ == v@,
{
    match v {
        KeywordType::Flag(b) => KeywordType::Flag(*b),
        KeywordType::SingleValue(s) => KeywordType::SingleValue(s.clone()),
        KeywordType::MultiValue(vs) => KeywordType::MultiValue(string_vec_clone(vs)),
        KeywordType::Absent => KeywordType::Absent,
    }
}

/// Copy of a string list with the same mathematical value.
pub fn string_vec_clone(vs: &Vec<String>) -> (r: Vec<String>)
    ensures
        r.deep_view() == vs.deep_view(),
{
    let mut out: Vec<String> = Vec::new();
    let n = vs.len();
    let mut i: usize = 0;
    while i < n
        invariant
            i <= n,
            out.len() == i,
            forall|j: int| 0 <= j < i ==> out.deep_view()[j] == vs.deep_view()[j],
        decreases n - i,
    {
        out.push(vs[i].clone());
        i += 1;
    }
    proof {
        assert(out.deep_view() =~= vs.deep_view());
    }
    out
}

/// Copy of an entry with the same mathematical value.
pub fn entry_clone(e: &SubContainer) -> (r: SubContainer)
    ensures
        r@ == e@,
{
    SubContainer { value: keyword_type_clone(&e.value), is_default: e.is_default }
}

} // verus!
