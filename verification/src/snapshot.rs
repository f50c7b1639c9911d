use vstd::prelude::*;

use crate::error::SshdConfigError;
use crate::keyword::{EntryVal, KeywordType, KwVal, SubContainer, entry_clone, keyword_type_clone};
use crate::strorder::{lemma_seq_lt_trichotomy, lemma_seq_lt_trans, seq_lt, str_eq, str_lt};

verus! {

/// One point-in-time configuration: a mapping keyword name -> entry, kept as
/// a vector of pairs sorted strictly by keyword (so keys are unique and every
/// walk over it is deterministic), plus the path of the managed file.
#[derive(Debug)]
pub struct ConfigData {
    pub config_lookup: Vec<(String, SubContainer)>,
    pub config_filepath: String,
}

/// View of an entry vector: each pair as (key characters, entry value).
pub open spec fn entries_view(s: Seq<(String, SubContainer)>) -> Seq<(Seq<char>, EntryVal)> {
    Seq::new(s.len(), |i: int| (s[i].0@, s[i].1@))
}

/// Keys strictly ascending in lexicographic order; implies they are unique.
pub open spec fn sorted_keys(s: Seq<(Seq<char>, EntryVal)>) -> bool {
    forall|i: int, j: int| 0 <= i < j < s.len() ==> seq_lt(s[i].0, s[j].0)
}

/// First entry whose key is `k`, scanning left to right.
pub open spec fn lookup_seq(s: Seq<(Seq<char>, EntryVal)>, k: Seq<char>) -> Option<EntryVal>
    decreases s.len(),
{
    if s.len() == 0 {
        None
    } else if s[0].0 == k {
        Some(s[0].1)
    } else {
        lookup_seq(s.drop_first(), k)
    }
}

/// `lookup_seq` finds a key exactly when some index holds it.
pub proof fn lemma_lookup_exists(s: Seq<(Seq<char>, EntryVal)>, k: Seq<char>)
    ensures
        lookup_seq(s, k) is Some <==> exists|i: int| 0 <= i < s.len() && s[i].0 == k,
    decreases s.len(),
{
    if s.len() > 0 {
        lemma_lookup_exists(s.drop_first(), k);
        if s[0].0 == k {
            assert(s[0].0 == k && 0 < s.len());
        } else if lookup_seq(s.drop_first(), k) is Some {
            let i = choose|i: int| 0 <= i < s.drop_first().len() && s.drop_first()[i].0 == k;
            assert(s[i + 1].0 == k);
        } else {
            assert forall|i: int| 0 <= i < s.len() implies s[i].0 != k by {
                if i > 0 {
                    assert(s.drop_first()[i - 1].0 == s[i].0);
                }
            }
        }
    }
}

/// In a sorted entry vector, looking up the key at index `i` yields exactly
/// the entry at index `i`.
pub proof fn lemma_lookup_at(s: Seq<(Seq<char>, EntryVal)>, i: int)
    requires
        sorted_keys(s),
        0 <= i < s.len(),
    ensures
        lookup_seq(s, s[i].0) == Some(s[i].1),
    decreases s.len(),
{
    if i == 0 {
    } else {
        assert(seq_lt(s[0].0, s[i].0));
        lemma_seq_lt_trichotomy(s[0].0, s[i].0);
        assert(s[0].0 != s[i].0);
        assert(sorted_keys(s.drop_first())) by {
            assert forall|p: int, q: int|
                0 <= p < q < s.drop_first().len() implies seq_lt(
                s.drop_first()[p].0,
                s.drop_first()[q].0,
            ) by {
                assert(s.drop_first()[p] == s[p + 1]);
                assert(s.drop_first()[q] == s[q + 1]);
            }
        }
        assert(s.drop_first()[i - 1] == s[i]);
        lemma_lookup_at(s.drop_first(), i - 1);
    }
}

/// In a sorted entry vector with no index holding `k`, lookup yields `None`.
pub proof fn lemma_lookup_none(s: Seq<(Seq<char>, EntryVal)>, k: Seq<char>)
    requires
        forall|i: int| 0 <= i < s.len() ==> s[i].0 != k,
    ensures
        lookup_seq(s, k) is None,
{
    lemma_lookup_exists(s, k);
}

impl ConfigData {
    /// Mathematical contents of the snapshot.
    pub open spec fn entries(&self) -> Seq<(Seq<char>, EntryVal)> {
        entries_view(self.config_lookup@)
    }

    /// Well-formedness: the entry vector is sorted strictly by keyword.
    pub open spec fn wf(&self) -> bool {
        sorted_keys(self.entries())
    }

    /// The entry recorded for keyword `k`, if any.
    pub open spec fn spec_lookup(&self, k: Seq<char>) -> Option<EntryVal> {
        lookup_seq(self.entries(), k)
    }

    /// Path of the managed file this snapshot mirrors.
    pub open spec fn spec_filepath(&self) -> Seq<char> {
        self.config_filepath@
    }

    /// An empty snapshot pointing at the platform's usual managed file.
    pub fn new() -> (r: ConfigData)
        ensures
            r.wf(),
            r.entries().len() == 0,
            forall|k: Seq<char>| r.spec_lookup(k) is None,
            r.spec_filepath() == "/etc/ssh/sshd_config"@,
    {
        ConfigData {
            config_lookup: Vec::new(),
            config_filepath: "/etc/ssh/sshd_config".to_owned(),
        }
    }

    /// An empty snapshot for a caller-chosen managed path.
    pub fn new_at(path: String) -> (r: ConfigData)
        ensures
            r.wf(),
            r.entries().len() == 0,
            forall|k: Seq<char>| r.spec_lookup(k) is None,
            r.spec_filepath() == path@,
    {
        ConfigData { config_lookup: Vec::new(), config_filepath: path }
    }

    /// The managed file's path, for the surrounding process.
    pub fn filepath(&self) -> (r: &String)
        ensures
            r@ == self.spec_filepath(),
    {
        &self.config_filepath
    }

    /// Index of the first entry whose key is not below `keyword`.
    fn find_index(&self, keyword: &str) -> (r: usize)
        ensures
            r <= self.config_lookup.len(),
            forall|j: int| 0 <= j < r ==> seq_lt(self.entries()[j].0, keyword@),
            r < self.config_lookup.len() ==> !seq_lt(self.entries()[r as int].0, keyword@),
    {
        let n = self.config_lookup.len();
        let mut i: usize = 0;
        while i < n
            invariant
                i <= n,
                forall|j: int| 0 <= j < i ==> seq_lt(self.entries()[j].0, keyword@),
            decreases n - i,
        {
            if !str_lt(self.config_lookup[i].0.as_str(), keyword) {
                return i;
            }
            i += 1;
        }
        i
    }

    /// The entry declared or defaulted for `keyword`, if the snapshot has one.
    pub fn find(&self, keyword: &str) -> (r: Option<&SubContainer>)
        requires
            self.wf(),
        ensures
            match r {
                Some(e) => self.spec_lookup(keyword@) == Some(e@),
                None => self.spec_lookup(keyword@) is None,
            },
    {
        let i = self.find_index(keyword);
        if i < self.config_lookup.len() && str_eq(self.config_lookup[i].0.as_str(), keyword) {
            proof {
                lemma_lookup_at(self.entries(), i as int);
            }
            Some(&self.config_lookup[i].1)
        } else {
            proof {
                assert forall|j: int|
                    0 <= j < self.entries().len() implies self.entries()[j].0 != keyword@ by {
                    if j < i {
                        lemma_seq_lt_trichotomy(self.entries()[j].0, keyword@);
                    } else if j > i {
                        assert(seq_lt(self.entries()[i as int].0, self.entries()[j].0));
                        if self.entries()[j].0 == keyword@ {
                            assert(seq_lt(self.entries()[i as int].0, keyword@));
                        }
                    }
                }
                lemma_lookup_none(self.entries(), keyword@);
            }
            None
        }
    }

    /// Insert `entry` under `keyword`, replacing any entry already there.
    /// Every other keyword's entry is unchanged.
    pub fn upsert(&mut self, keyword: &String, entry: SubContainer)
        requires
            old(self).wf(),
        ensures
            final(self).wf(),
            final(self).spec_lookup(keyword@) == Some(entry@),
            forall|k: Seq<char>|
                k != keyword@ ==> final(self).spec_lookup(k) == old(self).spec_lookup(k),
            final(self).spec_filepath() == old(self).spec_filepath(),
    {
        let ghost olds = self.entries();
        let i = self.find_index(keyword.as_str());
        if i < self.config_lookup.len() && str_eq(self.config_lookup[i].0.as_str(), keyword.as_str()) {
            self.config_lookup.remove(i);
            self.config_lookup.insert(i, (keyword.clone(), entry));
            proof {
                let s = self.entries();
                assert forall|j: int| 0 <= j < s.len() && j != i implies s[j] == olds[j] by {}
                assert(s[i as int].0 == keyword@);
                assert(s.len() == olds.len());
                assert(sorted_keys(s)) by {
                    assert forall|p: int, q: int| 0 <= p < q < s.len() implies seq_lt(
                        s[p].0,
                        s[q].0,
                    ) by {
                        assert(olds[p].0 == if p == i {
                            keyword@
                        } else {
                            s[p].0
                        } || s[p].0 == olds[p].0);
                        assert(seq_lt(olds[p].0, olds[q].0));
                    }
                }
                self.lemma_upsert_lookup(olds, i as int, keyword@, entry@);
            }
        } else {
            self.config_lookup.insert(i, (keyword.clone(), entry));
            proof {
                let s = self.entries();
                assert(s.len() == olds.len() + 1);
                assert forall|j: int| 0 <= j < i implies s[j] == olds[j] by {}
                assert forall|j: int| i < j < s.len() implies s[j] == olds[j - 1] by {}
                assert(s[i as int].0 == keyword@);
                assert(sorted_keys(s)) by {
                    assert forall|p: int, q: int| 0 <= p < q < s.len() implies seq_lt(
                        s[p].0,
                        s[q].0,
                    ) by {
                        lemma_upsert_sorted_step(olds, s, i as int, keyword@, p, q);
                    }
                }
                self.lemma_insert_lookup(olds, i as int, keyword@, entry@);
            }
        }
    }

    /// After replacing index `i` (whose key is `kw`) the lookup of `kw` is the
    /// new entry and every other lookup is unchanged.
    proof fn lemma_upsert_lookup(
        &self,
        olds: Seq<(Seq<char>, EntryVal)>,
        i: int,
        kw: Seq<char>,
        e: EntryVal,
    )
        requires
            sorted_keys(self.entries()),
            sorted_keys(olds),
            self.entries().len() == olds.len(),
            0 <= i < olds.len(),
            olds[i].0 == kw,
            self.entries()[i] == (kw, e),
            forall|j: int| 0 <= j < olds.len() && j != i ==> self.entries()[j] == olds[j],
        ensures
            self.spec_lookup(kw) == Some(e),
            forall|k: Seq<char>| k != kw ==> self.spec_lookup(k) == lookup_seq(olds, k),
    {
        let s = self.entries();
        lemma_lookup_at(s, i);
        assert forall|k: Seq<char>| k != kw implies self.spec_lookup(k) == lookup_seq(olds, k) by {
            lemma_lookup_exists(s, k);
            lemma_lookup_exists(olds, k);
            if lookup_seq(olds, k) is Some {
                let j = choose|j: int| 0 <= j < olds.len() && olds[j].0 == k;
                assert(s[j] == olds[j]);
                lemma_lookup_at(olds, j);
                lemma_lookup_at(s, j);
            } else {
                assert forall|j: int| 0 <= j < s.len() implies s[j].0 != k by {
                    if j != i {
                        assert(s[j] == olds[j]);
                    }
                }
                lemma_lookup_none(s, k);
            }
        }
    }

    /// After inserting a fresh key `kw` at index `i`, its lookup is the new
    /// entry and every other lookup is unchanged.
    proof fn lemma_insert_lookup(
        &self,
        olds: Seq<(Seq<char>, EntryVal)>,
        i: int,
        kw: Seq<char>,
        e: EntryVal,
    )
        requires
            sorted_keys(self.entries()),
            sorted_keys(olds),
            self.entries().len() == olds.len() + 1,
            0 <= i <= olds.len(),
            self.entries()[i] == (kw, e),
            forall|j: int| 0 <= j < i ==> self.entries()[j] == olds[j],
            forall|j: int| i < j < self.entries().len() ==> self.entries()[j] == olds[j - 1],
        ensures
            self.spec_lookup(kw) == Some(e),
            forall|k: Seq<char>| k != kw ==> self.spec_lookup(k) == lookup_seq(olds, k),
    {
        let s = self.entries();
        lemma_lookup_at(s, i);
        assert forall|k: Seq<char>| k != kw implies self.spec_lookup(k) == lookup_seq(olds, k) by {
            lemma_lookup_exists(s, k);
            lemma_lookup_exists(olds, k);
            if lookup_seq(olds, k) is Some {
                let j = choose|j: int| 0 <= j < olds.len() && olds[j].0 == k;
                lemma_lookup_at(olds, j);
                if j < i {
                    assert(s[j] == olds[j]);
                    lemma_lookup_at(s, j);
                } else {
                    assert(s[j + 1] == olds[j]);
                    lemma_lookup_at(s, j + 1);
                }
            } else {
                assert forall|j: int| 0 <= j < s.len() implies s[j].0 != k by {
                    if j < i {
                        assert(s[j] == olds[j]);
                    } else if j > i {
                        assert(s[j] == olds[j - 1]);
                    }
                }
                lemma_lookup_none(s, k);
            }
        }
    }

    /// Delete the entry under `keyword` if there is one; every other
    /// keyword's entry is unchanged.
    pub fn remove(&mut self, keyword: &String)
        requires
            old(self).wf(),
        ensures
            final(self).wf(),
            final(self).spec_lookup(keyword@) is None,
            forall|k: Seq<char>|
                k != keyword@ ==> final(self).spec_lookup(k) == old(self).spec_lookup(k),
            final(self).spec_filepath() == old(self).spec_filepath(),
    {
        let ghost olds = self.entries();
        let i = self.find_index(keyword.as_str());
        if i < self.config_lookup.len() && str_eq(self.config_lookup[i].0.as_str(), keyword.as_str()) {
            self.config_lookup.remove(i);
            proof {
                let s = self.entries();
                assert(s.len() == olds.len() - 1);
                assert forall|j: int| 0 <= j < i implies s[j] == olds[j] by {}
                assert forall|j: int| i <= j < s.len() implies s[j] == olds[j + 1] by {}
                assert(sorted_keys(s)) by {
                    assert forall|p: int, q: int| 0 <= p < q < s.len() implies seq_lt(
                        s[p].0,
                        s[q].0,
                    ) by {
                        let p2: int = if p < i { p } else { p + 1 };
                        let q2: int = if q < i { q } else { q + 1 };
                        assert(s[p].0 == olds[p2].0);
                        assert(s[q].0 == olds[q2].0);
                        assert(seq_lt(olds[p2].0, olds[q2].0));
                    }
                }
                assert forall|j: int| 0 <= j < s.len() implies s[j].0 != keyword@ by {
                    let j2: int = if j < i { j } else { j + 1 };
                    assert(s[j].0 == olds[j2].0);
                    if j2 < i {
                        lemma_seq_lt_trichotomy(olds[j2].0, olds[i as int].0);
                        assert(seq_lt(olds[j2].0, olds[i as int].0));
                    } else {
                        assert(seq_lt(olds[i as int].0, olds[j2].0));
                        lemma_seq_lt_trichotomy(olds[i as int].0, olds[j2].0);
                    }
                }
                lemma_lookup_none(s, keyword@);
                assert forall|k: Seq<char>|
                    k != keyword@ implies self.spec_lookup(k) == lookup_seq(olds, k) by {
                    lemma_lookup_exists(s, k);
                    lemma_lookup_exists(olds, k);
                    if lookup_seq(olds, k) is Some {
                        let j = choose|j: int| 0 <= j < olds.len() && olds[j].0 == k;
                        lemma_lookup_at(olds, j);
                        if j < i {
                            lemma_lookup_at(s, j);
                        } else {
                            assert(j != i);
                            assert(s[j - 1] == olds[j]);
                            lemma_lookup_at(s, j - 1);
                        }
                    } else {
                        assert forall|j: int| 0 <= j < s.len() implies s[j].0 != k by {
                            let j2: int = if j < i { j } else { j + 1 };
                            assert(s[j] == olds[j2]);
                        }
                        lemma_lookup_none(s, k);
                    }
                }
            }
        } else {
            proof {
                assert forall|j: int|
                    0 <= j < olds.len() implies olds[j].0 != keyword@ by {
                    if j < i {
                        lemma_seq_lt_trichotomy(olds[j].0, keyword@);
                    } else if j > i {
                        assert(seq_lt(olds[i as int].0, olds[j].0));
                        if olds[j].0 == keyword@ {
                            assert(seq_lt(olds[i as int].0, keyword@));
                        }
                    }
                }
                lemma_lookup_none(olds, keyword@);
            }
        }
    }
}

impl Default for ConfigData {
    /// The same empty snapshot `new` builds.
    fn default() -> (r: ConfigData)
        ensures
            r.wf(),
            r.entries().len() == 0,
            r.spec_filepath() == "/etc/ssh/sshd_config"@,
    {
        ConfigData::new()
    }
}

/// Sortedness is kept when a fresh key below everything at and above `i`,
/// and above everything below `i`, is inserted at `i`.
proof fn lemma_upsert_sorted_step(
    olds: Seq<(Seq<char>, EntryVal)>,
    s: Seq<(Seq<char>, EntryVal)>,
    i: int,
    kw: Seq<char>,
    p: int,
    q: int,
)
    requires
        sorted_keys(olds),
        s.len() == olds.len() + 1,
        0 <= i <= olds.len(),
        s[i] == (kw, s[i].1),
        s[i].0 == kw,
        forall|j: int| 0 <= j < i ==> s[j] == olds[j],
        forall|j: int| i < j < s.len() ==> s[j] == olds[j - 1],
        forall|j: int| 0 <= j < i ==> seq_lt(olds[j].0, kw),
        i < olds.len() ==> !seq_lt(olds[i].0, kw),
        i < olds.len() ==> olds[i].0 != kw,
        0 <= p < q < s.len(),
    ensures
        seq_lt(s[p].0, s[q].0),
{
    if p < i && q < i {
    } else if p < i && q == i {
        assert(seq_lt(olds[p].0, kw));
    } else if p == i && q > i {
        lemma_seq_lt_trichotomy(kw, olds[q - 1].0);
        if q - 1 > i {
            assert(seq_lt(olds[i].0, olds[q - 1].0));
            if seq_lt(olds[q - 1].0, kw) {
                lemma_seq_lt_trans(olds[i].0, olds[q - 1].0, kw);
            }
        } else {
            assert(q - 1 == i);
            assert(!seq_lt(olds[i].0, kw));
        }
        if olds[q - 1].0 == kw {
            if q - 1 == i {
            } else {
                assert(seq_lt(olds[i].0, olds[q - 1].0));
                assert(seq_lt(olds[i].0, kw));
            }
            assert(false);
        }
        assert(seq_lt(kw, olds[q - 1].0));
    } else if p < i && q > i {
        assert(seq_lt(olds[p].0, kw));
        assert(s[q].0 == olds[q - 1].0);
        if q - 1 == i {
            lemma_seq_lt_trichotomy(kw, olds[i].0);
            assert(seq_lt(kw, olds[i].0));
            lemma_seq_lt_trans(olds[p].0, kw, olds[i].0);
        } else {
            assert(seq_lt(olds[p].0, olds[q - 1].0));
        }
    } else {
        if p > i {
            assert(s[p].0 == olds[p - 1].0);
            assert(s[q].0 == olds[q - 1].0);
            assert(seq_lt(olds[p - 1].0, olds[q - 1].0));
        }
    }
}

} // verus!

verus! {

/// The value a possibly-present entry holds.
pub open spec fn opt_entry_val(o: Option<&SubContainer>) -> Option<KwVal> {
    match o {
        None => None,
        Some(e) => Some(e@.value),
    }
}

/// Coercion of an incoming value against the shape already known for the
/// keyword. Accepted: the same shape; any value where no shape is known yet
/// (`Absent` or no entry); an incoming `Absent` (the keyword loses its value);
/// and a bare scalar promoted to a one-element list where a list is expected.
/// Everything else is a malformed declaration.
pub open spec fn shape_coerce(existing: Option<KwVal>, v: KwVal) -> Option<KwVal> {
    match existing {
        None => Some(v),
        Some(e) => match e {
            KwVal::Absent => Some(v),
            KwVal::Flag(_) => match v {
                KwVal::Flag(_) => Some(v),
                KwVal::Absent => Some(v),
                _ => None,
            },
            KwVal::Single(_) => match v {
                KwVal::Single(_) => Some(v),
                KwVal::Absent => Some(v),
                _ => None,
            },
            KwVal::Multi(_) => match v {
                KwVal::Multi(_) => Some(v),
                KwVal::Single(s) => Some(KwVal::Multi(seq![s])),
                KwVal::Absent => Some(v),
                _ => None,
            },
        },
    }
}

/// One imported pair applied to the entry a keyword currently has:
/// the value is coerced to the known shape and the defaultness is set by
/// whether the import is explicit. `None` means the pair is malformed.
pub open spec fn merge_step(cur: Option<EntryVal>, v: KwVal, explicit: bool) -> Option<EntryVal> {
    match shape_coerce(
        match cur {
            None => None,
            Some(e) => Some(e.value),
        },
        v,
    ) {
        None => None,
        Some(v2) => Some(EntryVal { value: v2, is_default: !explicit }),
    }
}

/// View of decoded key/value pairs.
pub open spec fn pairs_view(s: Seq<(String, KeywordType)>) -> Seq<(Seq<char>, KwVal)> {
    Seq::new(s.len(), |i: int| (s[i].0@, s[i].1@))
}

/// The entry keyword `k` ends up with after the pairs are imported in order,
/// starting from `cur`. The outer `None` means some pair for `k` was
/// malformed.
pub open spec fn merge_key(
    cur: Option<EntryVal>,
    pairs: Seq<(Seq<char>, KwVal)>,
    explicit: bool,
    k: Seq<char>,
) -> Option<Option<EntryVal>>
    decreases pairs.len(),
{
    if pairs.len() == 0 {
        Some(cur)
    } else if pairs[0].0 == k {
        match merge_step(cur, pairs[0].1, explicit) {
            None => None,
            Some(e) => merge_key(Some(e), pairs.drop_first(), explicit, k),
        }
    } else {
        merge_key(cur, pairs.drop_first(), explicit, k)
    }
}

/// `merge_key` with the error case collapsed, for stating results.
pub open spec fn merge_val(
    cur: Option<EntryVal>,
    pairs: Seq<(Seq<char>, KwVal)>,
    explicit: bool,
    k: Seq<char>,
) -> Option<EntryVal> {
    match merge_key(cur, pairs, explicit, k) {
        None => None,
        Some(c) => c,
    }
}

/// Processing one more pair at the end is one more `merge_step`.
pub proof fn lemma_merge_key_push(
    cur: Option<EntryVal>,
    pairs: Seq<(Seq<char>, KwVal)>,
    p: (Seq<char>, KwVal),
    explicit: bool,
    k: Seq<char>,
)
    ensures
        merge_key(cur, pairs.push(p), explicit, k) == (match merge_key(cur, pairs, explicit, k) {
            None => None::<Option<EntryVal>>,
            Some(c) => if p.0 == k {
                match merge_step(c, p.1, explicit) {
                    None => None::<Option<EntryVal>>,
                    Some(e) => Some(Some(e)),
                }
            } else {
                Some(c)
            },
        }),
    decreases pairs.len(),
{
    let s = pairs.push(p);
    if pairs.len() == 0 {
        assert(s.len() == 1);
        assert(s[0] == p);
        assert(s.drop_first() =~= Seq::<(Seq<char>, KwVal)>::empty());
        assert(merge_key(cur, pairs, explicit, k) == Some(cur));
        if p.0 == k {
            match merge_step(cur, p.1, explicit) {
                None => {
                    assert(merge_key(cur, s, explicit, k) is None);
                },
                Some(e) => {
                    assert(merge_key(Some(e), s.drop_first(), explicit, k) == Some(Some(e)));
                    assert(merge_key(cur, s, explicit, k) == Some(Some(e)));
                },
            }
        } else {
            assert(merge_key(cur, s, explicit, k) == merge_key(
                cur,
                s.drop_first(),
                explicit,
                k,
            ));
            assert(merge_key(cur, s.drop_first(), explicit, k) == Some(cur));
        }
    } else {
        assert(s[0] == pairs[0]);
        assert(s.drop_first() =~= pairs.drop_first().push(p));
        if pairs[0].0 == k {
            match merge_step(cur, pairs[0].1, explicit) {
                None => {
                    assert(merge_key(cur, s, explicit, k) is None);
                    assert(merge_key(cur, pairs, explicit, k) is None);
                },
                Some(e) => {
                    lemma_merge_key_push(Some(e), pairs.drop_first(), p, explicit, k);
                    assert(merge_key(cur, s, explicit, k) == merge_key(
                        Some(e),
                        pairs.drop_first().push(p),
                        explicit,
                        k,
                    ));
                    assert(merge_key(cur, pairs, explicit, k) == merge_key(
                        Some(e),
                        pairs.drop_first(),
                        explicit,
                        k,
                    ));
                },
            }
        } else {
            lemma_merge_key_push(cur, pairs.drop_first(), p, explicit, k);
            assert(merge_key(cur, s, explicit, k) == merge_key(
                cur,
                pairs.drop_first().push(p),
                explicit,
                k,
            ));
            assert(merge_key(cur, pairs, explicit, k) == merge_key(
                cur,
                pairs.drop_first(),
                explicit,
                k,
            ));
        }
    }
}

/// A failure on a prefix of the pairs is a failure on the whole list.
pub proof fn lemma_merge_key_prefix_none(
    cur: Option<EntryVal>,
    pairs: Seq<(Seq<char>, KwVal)>,
    explicit: bool,
    k: Seq<char>,
    n: int,
)
    requires
        0 <= n <= pairs.len(),
        merge_key(cur, pairs.take(n), explicit, k) is None,
    ensures
        merge_key(cur, pairs, explicit, k) is None,
    decreases pairs.len() - n,
{
    if n == pairs.len() {
        assert(pairs.take(n) =~= pairs);
    } else {
        assert(pairs.take(n + 1) =~= pairs.take(n).push(pairs[n]));
        lemma_merge_key_push(cur, pairs.take(n), pairs[n], explicit, k);
        lemma_merge_key_prefix_none(cur, pairs, explicit, k, n + 1);
    }
}

/// Executable coercion, proved against `shape_coerce`.
pub fn coerce_value(existing: Option<&SubContainer>, v: &KeywordType) -> (r: Result<
    KeywordType,
    SshdConfigError,
>)
    ensures
        match r {
            Ok(v2) => shape_coerce(opt_entry_val(existing), v@) == Some(v2@),
            Err(e) => shape_coerce(opt_entry_val(existing), v@) is None
                && e == SshdConfigError::MalformedKeyword,
        },
{
    match existing {
        None => Ok(keyword_type_clone(v)),
        Some(e) => match &e.value {
            KeywordType::Absent => Ok(keyword_type_clone(v)),
            KeywordType::Flag(_) => match v {
                KeywordType::Flag(_) => Ok(keyword_type_clone(v)),
                KeywordType::Absent => Ok(keyword_type_clone(v)),
                _ => Err(SshdConfigError::MalformedKeyword),
            },
            KeywordType::SingleValue(_) => match v {
                KeywordType::SingleValue(_) => Ok(keyword_type_clone(v)),
                KeywordType::Absent => Ok(keyword_type_clone(v)),
                _ => Err(SshdConfigError::MalformedKeyword),
            },
            KeywordType::MultiValue(_) => match v {
                KeywordType::MultiValue(_) => Ok(keyword_type_clone(v)),
                KeywordType::Absent => Ok(keyword_type_clone(v)),
                KeywordType::SingleValue(s) => {
                    let promoted = vec![s.clone()];
                    proof {
                        assert(promoted.deep_view() =~= seq![s@]);
                    }
                    Ok(KeywordType::MultiValue(promoted))
                },
                _ => Err(SshdConfigError::MalformedKeyword),
            },
        },
    }
}

impl ConfigData {
    /// All pairs fit the shapes the snapshot (and the pairs themselves)
    /// establish for their keywords.
    pub open spec fn merge_ok(&self, pairs: Seq<(Seq<char>, KwVal)>, explicit: bool) -> bool {
        forall|k: Seq<char>| merge_key(self.spec_lookup(k), pairs, explicit, k) is Some
    }

    /// Import decoded pairs in order. Each pair replaces or inserts its
    /// keyword's entry, with the value coerced to the keyword's known shape
    /// and `is_default` set to `!explicit`. On a malformed pair nothing at
    /// all is changed.
    pub fn merge_pairs(&mut self, pairs: &Vec<(String, KeywordType)>, explicit: bool) -> (r:
        Result<(), SshdConfigError>)
        requires
            old(self).wf(),
        ensures
            final(self).wf(),
            final(self).spec_filepath() == old(self).spec_filepath(),
            match r {
                Ok(()) => old(self).merge_ok(pairs_view(pairs@), explicit) && forall|k: Seq<char>|
                    final(self).spec_lookup(k) == merge_val(
                        old(self).spec_lookup(k),
                        pairs_view(pairs@),
                        explicit,
                        k,
                    ),
                Err(e) => e == SshdConfigError::MalformedKeyword && !old(self).merge_ok(
                    pairs_view(pairs@),
                    explicit,
                ) && *final(self) == *old(self),
            },
    {
        let ghost pv = pairs_view(pairs@);
        let ghost base = *self;
        let mut out = self.clone_snapshot();
        let n = pairs.len();
        let mut i: usize = 0;
        while i < n
            invariant
                n == pairs.len(),
                i <= n,
                out.wf(),
                out.spec_filepath() == base.spec_filepath(),
                pv == pairs_view(pairs@),
                forall|k: Seq<char>| merge_key(base.spec_lookup(k), pv.take(i as int), explicit, k)
                    is Some,
                forall|k: Seq<char>| out.spec_lookup(k) == merge_val(
                    base.spec_lookup(k),
                    pv.take(i as int),
                    explicit,
                    k,
                ),
            decreases n - i,
        {
            let kw = &pairs[i].0;
            let v = &pairs[i].1;
            let ghost prev = out;
            let coerced = {
                let existing = out.find(kw.as_str());
                coerce_value(existing, v)
            };
            match coerced {
                Ok(v2) => {
                    let entry = SubContainer { value: v2, is_default: !explicit };
                    out.upsert(kw, entry);
                    proof {
                        assert(pv.take(i + 1) =~= pv.take(i as int).push(pv[i as int]));
                        assert(pv[i as int] == (kw@, v@));
                        assert forall|k: Seq<char>|
                            merge_key(base.spec_lookup(k), pv.take(i + 1), explicit, k)
                                is Some by {
                            lemma_merge_key_push(
                                base.spec_lookup(k),
                                pv.take(i as int),
                                pv[i as int],
                                explicit,
                                k,
                            );
                            if k == kw@ {
                                assert(merge_step(prev.spec_lookup(k), v@, explicit) == Some(
                                    entry@,
                                ));
                            }
                        }
                        assert forall|k: Seq<char>|
                            out.spec_lookup(k) == merge_val(
                                base.spec_lookup(k),
                                pv.take(i + 1),
                                explicit,
                                k,
                            ) by {
                            lemma_merge_key_push(
                                base.spec_lookup(k),
                                pv.take(i as int),
                                pv[i as int],
                                explicit,
                                k,
                            );
                            if k == kw@ {
                                assert(merge_step(prev.spec_lookup(k), v@, explicit) == Some(
                                    entry@,
                                ));
                            }
                        }
                    }
                },
                Err(e) => {
                    proof {
                        assert(pv.take(i + 1) =~= pv.take(i as int).push(pv[i as int]));
                        assert(pv[i as int] == (kw@, v@));
                        lemma_merge_key_push(
                            base.spec_lookup(kw@),
                            pv.take(i as int),
                            pv[i as int],
                            explicit,
                            kw@,
                        );
                        assert(merge_step(prev.spec_lookup(kw@), v@, explicit) is None);
                        assert(merge_key(base.spec_lookup(kw@), pv.take(i + 1), explicit, kw@)
                            is None);
                        lemma_merge_key_prefix_none(
                            base.spec_lookup(kw@),
                            pv,
                            explicit,
                            kw@,
                            i + 1,
                        );
                    }
                    return Err(e);
                },
            }
            i += 1;
        }
        proof {
            assert(pv.take(n as int) =~= pv);
        }
        *self = out;
        Ok(())
    }

    /// A structural copy with the same contents and path.
    pub fn clone_snapshot(&self) -> (r: ConfigData)
        ensures
            r.entries() == self.entries(),
            r.spec_filepath() == self.spec_filepath(),
    {
        let mut v: Vec<(String, SubContainer)> = Vec::new();
        let n = self.config_lookup.len();
        let mut i: usize = 0;
        while i < n
            invariant
                i <= n,
                v.len() == i,
                forall|j: int| 0 <= j < i ==> entries_view(v@)[j] == self.entries()[j],
            decreases n - i,
        {
            let kw = self.config_lookup[i].0.clone();
            let e = entry_clone(&self.config_lookup[i].1);
            v.push((kw, e));
            i += 1;
        }
        proof {
            assert(entries_view(v@) =~= self.entries());
        }
        ConfigData { config_lookup: v, config_filepath: self.config_filepath.clone() }
    }

    /// Import explicitly declared pairs: the only mutation path for
    /// "an administrator declared this".
    pub fn merge_explicit(&mut self, pairs: &Vec<(String, KeywordType)>) -> (r: Result<
        (),
        SshdConfigError,
    >)
        requires
            old(self).wf(),
        ensures
            final(self).wf(),
            final(self).spec_filepath() == old(self).spec_filepath(),
            match r {
                Ok(()) => old(self).merge_ok(pairs_view(pairs@), true) && forall|k: Seq<char>|
                    final(self).spec_lookup(k) == merge_val(
                        old(self).spec_lookup(k),
                        pairs_view(pairs@),
                        true,
                        k,
                    ),
                Err(e) => e == SshdConfigError::MalformedKeyword && !old(self).merge_ok(
                    pairs_view(pairs@),
                    true,
                ) && *final(self) == *old(self),
            },
    {
        self.merge_pairs(pairs, true)
    }

    /// A snapshot built from decoded pairs alone.
    pub fn build_from_pairs(pairs: &Vec<(String, KeywordType)>, explicit: bool) -> (r: Result<
        ConfigData,
        SshdConfigError,
    >)
        ensures
            match r {
                Ok(c) => c.wf() && c.spec_filepath() == "/etc/ssh/sshd_config"@ && forall|
                    k: Seq<char>,
                |
                    c.spec_lookup(k) == merge_val(None, pairs_view(pairs@), explicit, k),
                Err(e) => e == SshdConfigError::MalformedKeyword && exists|k: Seq<char>|
                    merge_key(None, pairs_view(pairs@), explicit, k) is None,
            },
    {
        let mut c = ConfigData::new();
        match c.merge_pairs(pairs, explicit) {
            Ok(()) => Ok(c),
            Err(e) => {
                proof {
                    let bad = choose|k: Seq<char>|
                        !(merge_key(c.spec_lookup(k), pairs_view(pairs@), explicit, k) is Some);
                }
                Err(e)
            },
        }
    }

    /// A snapshot seeded from the validator's resolved defaults: every entry
    /// is a daemon default.
    pub fn seed_defaults(pairs: &Vec<(String, KeywordType)>) -> (r: Result<
        ConfigData,
        SshdConfigError,
    >)
        ensures
            match r {
                Ok(c) => c.wf() && forall|k: Seq<char>| c.spec_lookup(k) == merge_val(
                    None,
                    pairs_view(pairs@),
                    false,
                    k,
                ),
                Err(e) => e == SshdConfigError::MalformedKeyword,
            },
    {
        ConfigData::build_from_pairs(pairs, false)
    }
}

} // verus!
