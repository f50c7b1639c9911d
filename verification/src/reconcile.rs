use vstd::prelude::*;

use crate::error::SshdConfigError;
use crate::keyword::{EntryVal, KwVal, SubContainer, UpdateKind, entry_clone, values_equal};
use crate::snapshot::{ConfigData, lemma_lookup_at, lemma_lookup_exists, lemma_lookup_none, merge_step, shape_coerce};
use crate::strorder::{lemma_seq_lt_trichotomy, lemma_seq_lt_trans, seq_lt, str_lt};

verus! {

/// One keyword's change between two snapshots: the entry to install (for
/// `Add`/`Modify`), or the entry being retired (for `Remove`), and its kind.
#[derive(Debug)]
pub struct DiffEntry {
    pub keyword: String,
    pub entry: SubContainer,
    pub kind: UpdateKind,
}

/// Mathematical value of a `DiffEntry`.
pub struct DiffEntryVal {
    pub keyword: Seq<char>,
    pub entry: EntryVal,
    pub kind: UpdateKind,
}

impl View for DiffEntry {
    type V = DiffEntryVal;

    open spec fn view(&self) -> DiffEntryVal {
        DiffEntryVal { keyword: self.keyword@, entry: self.entry@, kind: self.kind }
    }
}

/// View of a diff vector.
pub open spec fn diff_view(s: Seq<DiffEntry>) -> Seq<DiffEntryVal> {
    Seq::new(s.len(), |i: int| s[i]@)
}

/// How one keyword is classified between a base and a target entry.
///
/// - `Add`: absent in base, explicitly introduced by target.
/// - `Modify`: present in both with unequal values (shape-aware).
/// - `Remove`: explicitly set in base but gone from target, or reverted to a
///   default in target.
///
/// A keyword at a daemon default on the side that lacks it, or re-declared
/// with an equal value, is no change at all.
pub open spec fn classify(b: Option<EntryVal>, t: Option<EntryVal>) -> Option<
    (UpdateKind, EntryVal),
> {
    match b {
        None => match t {
            None => None,
            Some(te) => if !te.is_default {
                Some((UpdateKind::Add, te))
            } else {
                None
            },
        },
        Some(be) => match t {
            None => if !be.is_default {
                Some((UpdateKind::Remove, be))
            } else {
                None
            },
            Some(te) => if !be.is_default && te.is_default {
                Some((UpdateKind::Remove, te))
            } else if be.value != te.value {
                Some((UpdateKind::Modify, te))
            } else {
                None
            },
        },
    }
}

/// Diff keys strictly ascending, so the report order is canonical.
pub open spec fn diff_sorted(out: Seq<DiffEntryVal>) -> bool {
    forall|i: int, j: int| 0 <= i < j < out.len() ==> seq_lt(out[i].keyword, out[j].keyword)
}

/// `out` is exactly the diff of `base` against `target`: sorted, every
/// reported keyword classified as `classify` says, and every keyword that
/// `classify` flags is reported.
pub open spec fn diff_describes(
    base: ConfigData,
    target: ConfigData,
    out: Seq<DiffEntryVal>,
) -> bool {
    &&& diff_sorted(out)
    &&& forall|i: int| 0 <= i < out.len() ==> classify(
        base.spec_lookup(out[i].keyword),
        target.spec_lookup(out[i].keyword),
    ) == Some((out[i].kind, out[i].entry))
    &&& forall|k: Seq<char>| classify(base.spec_lookup(k), target.spec_lookup(k)) is Some
        ==> exists|i: int| 0 <= i < out.len() && out[i].keyword == k
}

/// First diff entry for keyword `k`, if any.
pub open spec fn ops_lookup(out: Seq<DiffEntryVal>, k: Seq<char>) -> Option<
    (UpdateKind, EntryVal),
>
    decreases out.len(),
{
    if out.len() == 0 {
        None
    } else if out[0].keyword == k {
        Some((out[0].kind, out[0].entry))
    } else {
        ops_lookup(out.drop_first(), k)
    }
}

/// `ops_lookup` finds a key exactly when some index holds it.
pub proof fn lemma_ops_lookup_exists(out: Seq<DiffEntryVal>, k: Seq<char>)
    ensures
        ops_lookup(out, k) is Some <==> exists|i: int| 0 <= i < out.len() && out[i].keyword == k,
    decreases out.len(),
{
    if out.len() > 0 {
        lemma_ops_lookup_exists(out.drop_first(), k);
        if out[0].keyword == k {
        } else if ops_lookup(out.drop_first(), k) is Some {
            let i = choose|i: int|
                0 <= i < out.drop_first().len() && out.drop_first()[i].keyword == k;
            assert(out[i + 1].keyword == k);
        } else {
            assert forall|i: int| 0 <= i < out.len() implies out[i].keyword != k by {
                if i > 0 {
                    assert(out.drop_first()[i - 1] == out[i]);
                }
            }
        }
    }
}

/// In a sorted diff, looking up the key at index `i` yields that entry.
pub proof fn lemma_ops_lookup_at(out: Seq<DiffEntryVal>, i: int)
    requires
        diff_sorted(out),
        0 <= i < out.len(),
    ensures
        ops_lookup(out, out[i].keyword) == Some((out[i].kind, out[i].entry)),
    decreases out.len(),
{
    if i > 0 {
        assert(seq_lt(out[0].keyword, out[i].keyword));
        lemma_seq_lt_trichotomy(out[0].keyword, out[i].keyword);
        assert(diff_sorted(out.drop_first())) by {
            assert forall|p: int, q: int|
                0 <= p < q < out.drop_first().len() implies seq_lt(
                out.drop_first()[p].keyword,
                out.drop_first()[q].keyword,
            ) by {
                assert(out.drop_first()[p] == out[p + 1]);
                assert(out.drop_first()[q] == out[q + 1]);
            }
        }
        assert(out.drop_first()[i - 1] == out[i]);
        lemma_ops_lookup_at(out.drop_first(), i - 1);
    }
}

/// Under `diff_describes`, the diff's entry for any keyword is exactly its
/// classification.
pub proof fn lemma_ops_lookup_classify(
    base: ConfigData,
    target: ConfigData,
    out: Seq<DiffEntryVal>,
    k: Seq<char>,
)
    requires
        diff_describes(base, target, out),
    ensures
        ops_lookup(out, k) == classify(base.spec_lookup(k), target.spec_lookup(k)),
{
    lemma_ops_lookup_exists(out, k);
    if classify(base.spec_lookup(k), target.spec_lookup(k)) is Some {
        let i = choose|i: int| 0 <= i < out.len() && out[i].keyword == k;
        lemma_ops_lookup_at(out, i);
    } else {
        if ops_lookup(out, k) is Some {
            let i = choose|i: int| 0 <= i < out.len() && out[i].keyword == k;
            assert(classify(base.spec_lookup(k), target.spec_lookup(k)) == Some(
                (out[i].kind, out[i].entry),
            ));
        }
    }
}

/// The entry a keyword ends up with after one diff operation is applied.
pub open spec fn applied_val(
    b: Option<EntryVal>,
    op: Option<(UpdateKind, EntryVal)>,
) -> Option<EntryVal> {
    match op {
        None => b,
        Some((kind, e)) => match kind {
            UpdateKind::Add => Some(e),
            UpdateKind::Modify => Some(e),
            UpdateKind::Remove => None,
        },
    }
}

/// Every operation fits the base snapshot: `Add` only where the keyword is
/// absent, `Modify` and `Remove` only where it is present.
pub open spec fn ops_applicable(base: ConfigData, out: Seq<DiffEntryVal>) -> bool {
    forall|i: int| 0 <= i < out.len() ==> (match (#[trigger] out[i]).kind {
        UpdateKind::Add => base.spec_lookup(out[i].keyword) is None,
        UpdateKind::Modify => base.spec_lookup(out[i].keyword) is Some,
        UpdateKind::Remove => base.spec_lookup(out[i].keyword) is Some,
    })
}

impl ConfigData {
    /// The ordered diff of `self` (the base) against `target`: one entry per
    /// changed keyword, in strictly ascending keyword order, exactly as
    /// `classify` dictates. Identical snapshots yield an empty diff.
    #[verifier::rlimit(50)]
    pub fn compare(&self, target: &ConfigData) -> (r: Vec<DiffEntry>)
        requires
            self.wf(),
            target.wf(),
        ensures
            diff_describes(*self, *target, diff_view(r@)),
    {
        let ghost bk = self.entries();
        let ghost tk = target.entries();
        let mut out: Vec<DiffEntry> = Vec::new();
        let bn = self.config_lookup.len();
        let tn = target.config_lookup.len();
        let mut i: usize = 0;
        let mut j: usize = 0;
        while i < bn || j < tn
            invariant
                bn == self.config_lookup.len(),
                tn == target.config_lookup.len(),
                bk == self.entries(),
                tk == target.entries(),
                i <= bn,
                j <= tn,
                diff_sorted(diff_view(out@)),
                forall|m: int| 0 <= m < out@.len() ==> classify(
                    self.spec_lookup(diff_view(out@)[m].keyword),
                    target.spec_lookup(diff_view(out@)[m].keyword),
                ) == Some((diff_view(out@)[m].kind, diff_view(out@)[m].entry)),
                forall|k: Seq<char>|
                    ((exists|bi: int| 0 <= bi < i && bk[bi].0 == k) || (exists|tj: int|
                        0 <= tj < j && tk[tj].0 == k)) && classify(
                        self.spec_lookup(k),
                        target.spec_lookup(k),
                    ) is Some ==> exists|m: int|
                        0 <= m < out@.len() && diff_view(out@)[m].keyword == k,
                forall|bi: int| 0 <= bi < i && j < tn ==> seq_lt(bk[bi].0, tk[j as int].0),
                forall|tj: int| 0 <= tj < j && i < bn ==> seq_lt(tk[tj].0, bk[i as int].0),
                forall|m: int| 0 <= m < out@.len() ==> (i < bn ==> seq_lt(
                    diff_view(out@)[m].keyword,
                    bk[i as int].0,
                )) && (j < tn ==> seq_lt(diff_view(out@)[m].keyword, tk[j as int].0)),
            decreases bn + tn - i - j,
        {
            let base_turn: bool = if j >= tn {
                true
            } else if i >= bn {
                false
            } else {
                str_lt(self.config_lookup[i].0.as_str(), target.config_lookup[j].0.as_str())
            };
            let both: bool = if i < bn && j < tn && !base_turn {
                !str_lt(target.config_lookup[j].0.as_str(), self.config_lookup[i].0.as_str())
            } else {
                false
            };
            let ghost old_out = diff_view(out@);
            let ghost i0 = i as int;
            let ghost j0 = j as int;
            if base_turn {
                // a keyword only the base still has at this point of the walk
                let kw = &self.config_lookup[i].0;
                let be = &self.config_lookup[i].1;
                proof {
                    assert(i0 < bn);
                    assert(kw@ == bk[i0].0);
                    lemma_lookup_at(bk, i0);
                    assert forall|tj: int| 0 <= tj < tk.len() implies tk[tj].0 != kw@ by {
                        if tj < j0 {
                            assert(seq_lt(tk[tj].0, bk[i0].0));
                            lemma_seq_lt_trichotomy(tk[tj].0, kw@);
                        } else {
                            assert(j0 < tn);
                            assert(seq_lt(kw@, tk[j0].0));
                            lemma_seq_lt_trichotomy(kw@, tk[j0].0);
                            if tj > j0 {
                                assert(seq_lt(tk[j0].0, tk[tj].0));
                            }
                            lemma_seq_lt_trichotomy(kw@, tk[tj].0);
                            if seq_lt(tk[tj].0, kw@) {
                                lemma_seq_lt_trans(tk[j0].0, tk[tj].0, kw@);
                            }
                        }
                    }
                    lemma_lookup_none(tk, kw@);
                }
                let ghost pushed = !be@.is_default;
                if !be.is_default {
                    out.push(
                        DiffEntry {
                            keyword: kw.clone(),
                            entry: entry_clone(be),
                            kind: UpdateKind::Remove,
                        },
                    );
                    proof {
                        assert(diff_view(out@) =~= old_out.push(
                            DiffEntryVal { keyword: kw@, entry: be@, kind: UpdateKind::Remove },
                        ));
                    }
                }
                i += 1;
                proof {
                    let no = diff_view(out@);
                    assert(classify(self.spec_lookup(kw@), target.spec_lookup(kw@)) == (if pushed {
                        Some((UpdateKind::Remove, be@))
                    } else {
                        None
                    }));
                    assert forall|p: int, q: int| 0 <= p < q < no.len() implies seq_lt(
                        no[p].keyword,
                        no[q].keyword,
                    ) by {
                        if q < old_out.len() {
                        } else {
                            assert(no[q].keyword == kw@);
                            assert(seq_lt(old_out[p].keyword, bk[i0].0));
                        }
                    }
                    assert forall|bi: int| 0 <= bi < i && j < tn implies seq_lt(
                        bk[bi].0,
                        tk[j as int].0,
                    ) by {
                        if bi == i0 {
                            assert(seq_lt(kw@, tk[j0].0));
                        }
                    }
                    assert forall|tj: int| 0 <= tj < j && i < bn implies seq_lt(
                        tk[tj].0,
                        bk[i as int].0,
                    ) by {
                        assert(seq_lt(tk[tj].0, bk[i0].0));
                        assert(seq_lt(bk[i0].0, bk[i0 + 1].0));
                        lemma_seq_lt_trans(tk[tj].0, bk[i0].0, bk[i0 + 1].0);
                    }
                    assert forall|m: int| 0 <= m < no.len() implies (i < bn ==> seq_lt(
                        no[m].keyword,
                        bk[i as int].0,
                    )) && (j < tn ==> seq_lt(no[m].keyword, tk[j as int].0)) by {
                        if m < old_out.len() {
                            if i < bn {
                                assert(seq_lt(old_out[m].keyword, bk[i0].0));
                                assert(seq_lt(bk[i0].0, bk[i0 + 1].0));
                                lemma_seq_lt_trans(old_out[m].keyword, bk[i0].0, bk[i0 + 1].0);
                            }
                        } else {
                            assert(no[m].keyword == kw@);
                            if i < bn {
                                assert(seq_lt(bk[i0].0, bk[i0 + 1].0));
                            }
                        }
                    }
                    assert forall|k: Seq<char>|
                        ((exists|bi: int| 0 <= bi < i && bk[bi].0 == k) || (exists|tj: int|
                            0 <= tj < j && tk[tj].0 == k)) && classify(
                            self.spec_lookup(k),
                            target.spec_lookup(k),
                        ) is Some implies exists|m: int| 0 <= m < no.len() && no[m].keyword == k by {
                        if k == kw@ {
                            assert(pushed);
                            assert(no[old_out.len() as int].keyword == k);
                        } else if (exists|bi: int| 0 <= bi < i0 && bk[bi].0 == k) || (exists|
                            tj: int,
                        | 0 <= tj < j && tk[tj].0 == k) {
                            let m = choose|m: int|
                                0 <= m < old_out.len() && old_out[m].keyword == k;
                            assert(no[m].keyword == k);
                        } else {
                            let bi = choose|bi: int| 0 <= bi < i && bk[bi].0 == k;
                            assert(bi == i0);
                            assert(false);
                        }
                    }
                }
            } else if both {
                // a keyword both snapshots carry
                let kw = &self.config_lookup[i].0;
                let be = &self.config_lookup[i].1;
                let te = &target.config_lookup[j].1;
                proof {
                    lemma_seq_lt_trichotomy(bk[i0].0, tk[j0].0);
                    assert(bk[i0].0 == tk[j0].0);
                    lemma_lookup_at(bk, i0);
                    lemma_lookup_at(tk, j0);
                }
                let ghost cls = classify(self.spec_lookup(kw@), target.spec_lookup(kw@));
                let ghost pushed = cls is Some;
                if !be.is_default && te.is_default {
                    out.push(
                        DiffEntry {
                            keyword: kw.clone(),
                            entry: entry_clone(te),
                            kind: UpdateKind::Remove,
                        },
                    );
                    proof {
                        assert(diff_view(out@) =~= old_out.push(
                            DiffEntryVal { keyword: kw@, entry: te@, kind: UpdateKind::Remove },
                        ));
                        assert(cls == Some((UpdateKind::Remove, te@)));
                    }
                } else if !values_equal(be, te) {
                    out.push(
                        DiffEntry {
                            keyword: kw.clone(),
                            entry: entry_clone(te),
                            kind: UpdateKind::Modify,
                        },
                    );
                    proof {
                        assert(diff_view(out@) =~= old_out.push(
                            DiffEntryVal { keyword: kw@, entry: te@, kind: UpdateKind::Modify },
                        ));
                        assert(cls == Some((UpdateKind::Modify, te@)));
                    }
                } else {
                    proof {
                        assert(cls is None);
                    }
                }
                i += 1;
                j += 1;
                proof {
                    let no = diff_view(out@);
                    assert forall|p: int, q: int| 0 <= p < q < no.len() implies seq_lt(
                        no[p].keyword,
                        no[q].keyword,
                    ) by {
                        if q >= old_out.len() {
                            assert(no[q].keyword == kw@);
                            assert(seq_lt(old_out[p].keyword, bk[i0].0));
                        }
                    }
                    assert forall|bi: int| 0 <= bi < i && j < tn implies seq_lt(
                        bk[bi].0,
                        tk[j as int].0,
                    ) by {
                        assert(seq_lt(tk[j0].0, tk[j0 + 1].0));
                        if bi < i0 {
                            assert(seq_lt(bk[bi].0, tk[j0].0));
                            lemma_seq_lt_trans(bk[bi].0, tk[j0].0, tk[j0 + 1].0);
                        } else {
                            assert(bk[bi].0 == tk[j0].0);
                        }
                    }
                    assert forall|tj: int| 0 <= tj < j && i < bn implies seq_lt(
                        tk[tj].0,
                        bk[i as int].0,
                    ) by {
                        assert(seq_lt(bk[i0].0, bk[i0 + 1].0));
                        if tj < j0 {
                            assert(seq_lt(tk[tj].0, bk[i0].0));
                            lemma_seq_lt_trans(tk[tj].0, bk[i0].0, bk[i0 + 1].0);
                        } else {
                            assert(tk[tj].0 == bk[i0].0);
                        }
                    }
                    assert forall|m: int| 0 <= m < no.len() implies (i < bn ==> seq_lt(
                        no[m].keyword,
                        bk[i as int].0,
                    )) && (j < tn ==> seq_lt(no[m].keyword, tk[j as int].0)) by {
                        if i < bn {
                            assert(seq_lt(bk[i0].0, bk[i0 + 1].0));
                        }
                        if j < tn {
                            assert(seq_lt(tk[j0].0, tk[j0 + 1].0));
                        }
                        if m < old_out.len() {
                            if i < bn {
                                lemma_seq_lt_trans(old_out[m].keyword, bk[i0].0, bk[i0 + 1].0);
                            }
                            if j < tn {
                                lemma_seq_lt_trans(old_out[m].keyword, tk[j0].0, tk[j0 + 1].0);
                            }
                        } else {
                            assert(no[m].keyword == kw@);
                        }
                    }
                    assert forall|k: Seq<char>|
                        ((exists|bi: int| 0 <= bi < i && bk[bi].0 == k) || (exists|tj: int|
                            0 <= tj < j && tk[tj].0 == k)) && classify(
                            self.spec_lookup(k),
                            target.spec_lookup(k),
                        ) is Some implies exists|m: int| 0 <= m < no.len() && no[m].keyword == k by {
                        if k == kw@ {
                            assert(pushed);
                            assert(no[old_out.len() as int].keyword == k);
                        } else if (exists|bi: int| 0 <= bi < i0 && bk[bi].0 == k) || (exists|
                            tj: int,
                        | 0 <= tj < j0 && tk[tj].0 == k) {
                            let m = choose|m: int|
                                0 <= m < old_out.len() && old_out[m].keyword == k;
                            assert(no[m].keyword == k);
                        } else {
                            if exists|bi: int| 0 <= bi < i && bk[bi].0 == k {
                                let bi = choose|bi: int| 0 <= bi < i && bk[bi].0 == k;
                                assert(bi == i0);
                                assert(false);
                            } else {
                                let tj = choose|tj: int| 0 <= tj < j && tk[tj].0 == k;
                                assert(tj == j0);
                                assert(false);
                            }
                        }
                    }
                }
            } else {
                // a keyword only the target introduces
                let kw = &target.config_lookup[j].0;
                let te = &target.config_lookup[j].1;
                proof {
                    assert(j0 < tn);
                    if i < bn {
                        lemma_seq_lt_trichotomy(bk[i0].0, tk[j0].0);
                        assert(seq_lt(tk[j0].0, bk[i0].0));
                    }
                    lemma_lookup_at(tk, j0);
                    assert forall|bi: int| 0 <= bi < bk.len() implies bk[bi].0 != kw@ by {
                        if bi < i0 {
                            lemma_seq_lt_trichotomy(bk[bi].0, kw@);
                        } else {
                            assert(i0 < bn);
                            if bi > i0 {
                                assert(seq_lt(bk[i0].0, bk[bi].0));
                            }
                            lemma_seq_lt_trichotomy(kw@, bk[bi].0);
                            if seq_lt(bk[bi].0, kw@) {
                                lemma_seq_lt_trans(bk[i0].0, bk[bi].0, kw@);
                            }
                        }
                    }
                    lemma_lookup_none(bk, kw@);
                }
                let ghost pushed = !te@.is_default;
                if !te.is_default {
                    out.push(
                        DiffEntry {
                            keyword: kw.clone(),
                            entry: entry_clone(te),
                            kind: UpdateKind::Add,
                        },
                    );
                    proof {
                        assert(diff_view(out@) =~= old_out.push(
                            DiffEntryVal { keyword: kw@, entry: te@, kind: UpdateKind::Add },
                        ));
                    }
                }
                j += 1;
                proof {
                    let no = diff_view(out@);
                    assert(classify(self.spec_lookup(kw@), target.spec_lookup(kw@)) == (if pushed {
                        Some((UpdateKind::Add, te@))
                    } else {
                        None
                    }));
                    assert forall|p: int, q: int| 0 <= p < q < no.len() implies seq_lt(
                        no[p].keyword,
                        no[q].keyword,
                    ) by {
                        if q >= old_out.len() {
                            assert(no[q].keyword == kw@);
                            assert(seq_lt(old_out[p].keyword, tk[j0].0));
                        }
                    }
                    assert forall|bi: int| 0 <= bi < i && j < tn implies seq_lt(
                        bk[bi].0,
                        tk[j as int].0,
                    ) by {
                        assert(seq_lt(tk[j0].0, tk[j0 + 1].0));
                        assert(seq_lt(bk[bi].0, tk[j0].0));
                        lemma_seq_lt_trans(bk[bi].0, tk[j0].0, tk[j0 + 1].0);
                    }
                    assert forall|tj: int| 0 <= tj < j && i < bn implies seq_lt(
                        tk[tj].0,
                        bk[i as int].0,
                    ) by {
                        if tj == j0 {
                            assert(seq_lt(kw@, bk[i0].0));
                        }
                    }
                    assert forall|m: int| 0 <= m < no.len() implies (i < bn ==> seq_lt(
                        no[m].keyword,
                        bk[i as int].0,
                    )) && (j < tn ==> seq_lt(no[m].keyword, tk[j as int].0)) by {
                        if m < old_out.len() {
                            if j < tn {
                                assert(seq_lt(old_out[m].keyword, tk[j0].0));
                                assert(seq_lt(tk[j0].0, tk[j0 + 1].0));
                                lemma_seq_lt_trans(old_out[m].keyword, tk[j0].0, tk[j0 + 1].0);
                            }
                        } else {
                            assert(no[m].keyword == kw@);
                            if j < tn {
                                assert(seq_lt(tk[j0].0, tk[j0 + 1].0));
                            }
                        }
                    }
                    assert forall|k: Seq<char>|
                        ((exists|bi: int| 0 <= bi < i && bk[bi].0 == k) || (exists|tj: int|
                            0 <= tj < j && tk[tj].0 == k)) && classify(
                            self.spec_lookup(k),
                            target.spec_lookup(k),
                        ) is Some implies exists|m: int| 0 <= m < no.len() && no[m].keyword == k by {
                        if k == kw@ {
                            assert(pushed);
                            assert(no[old_out.len() as int].keyword == k);
                        } else if (exists|bi: int| 0 <= bi < i && bk[bi].0 == k) || (exists|
                            tj: int,
                        | 0 <= tj < j0 && tk[tj].0 == k) {
                            let m = choose|m: int|
                                0 <= m < old_out.len() && old_out[m].keyword == k;
                            assert(no[m].keyword == k);
                        } else {
                            let tj = choose|tj: int| 0 <= tj < j && tk[tj].0 == k;
                            assert(tj == j0);
                            assert(false);
                        }
                    }
                }
            }
        }
        proof {
            assert forall|k: Seq<char>|
                classify(self.spec_lookup(k), target.spec_lookup(k)) is Some implies exists|m: int|
                0 <= m < diff_view(out@).len() && diff_view(out@)[m].keyword == k by {
                lemma_lookup_exists(bk, k);
                lemma_lookup_exists(tk, k);
                if self.spec_lookup(k) is None && target.spec_lookup(k) is None {
                    assert(classify(self.spec_lookup(k), target.spec_lookup(k)) is None);
                }
            }
        }
        out
    }
}

} // verus!

verus! {

/// One more operation at the end only matters for its own keyword, and only
/// if no earlier operation already named it.
pub proof fn lemma_ops_lookup_push(out: Seq<DiffEntryVal>, p: DiffEntryVal, k: Seq<char>)
    ensures
        ops_lookup(out.push(p), k) == (if ops_lookup(out, k) is Some {
            ops_lookup(out, k)
        } else if p.keyword == k {
            Some((p.kind, p.entry))
        } else {
            None
        }),
    decreases out.len(),
{
    let s = out.push(p);
    if out.len() == 0 {
        assert(s[0] == p);
        assert(s.drop_first() =~= Seq::<DiffEntryVal>::empty());
        if p.keyword != k {
            assert(ops_lookup(s, k) == ops_lookup(s.drop_first(), k));
        }
    } else {
        assert(s[0] == out[0]);
        assert(s.drop_first() =~= out.drop_first().push(p));
        if out[0].keyword == k {
        } else {
            lemma_ops_lookup_push(out.drop_first(), p, k);
            assert(ops_lookup(s, k) == ops_lookup(out.drop_first().push(p), k));
            assert(ops_lookup(out, k) == ops_lookup(out.drop_first(), k));
        }
    }
}

impl ConfigData {
    /// Apply a diff to `self`, producing the reconciled snapshot: `Add`
    /// inserts, `Modify` overwrites, `Remove` deletes. The operations must be
    /// strictly sorted by keyword and each must fit `self`; otherwise nothing
    /// is produced and the mismatch is reported as `InconsistentDiff`.
    #[verifier::rlimit(30)]
    pub fn update(&self, ops: &Vec<DiffEntry>) -> (r: Result<ConfigData, SshdConfigError>)
        requires
            self.wf(),
        ensures
            match r {
                Ok(c) => diff_sorted(diff_view(ops@)) && ops_applicable(*self, diff_view(ops@))
                    && c.wf() && c.spec_filepath() == self.spec_filepath() && forall|k: Seq<char>|
                    c.spec_lookup(k) == applied_val(
                        self.spec_lookup(k),
                        ops_lookup(diff_view(ops@), k),
                    ),
                Err(e) => e == SshdConfigError::InconsistentDiff && !(diff_sorted(diff_view(ops@))
                    && ops_applicable(*self, diff_view(ops@))),
            },
    {
        let ghost ov = diff_view(ops@);
        let mut c = self.clone_snapshot();
        proof {
            assert forall|k: Seq<char>| c.spec_lookup(k) == self.spec_lookup(k) by {}
        }
        let n = ops.len();
        let mut m: usize = 0;
        while m < n
            invariant
                n == ops.len(),
                ov == diff_view(ops@),
                m <= n,
                c.wf(),
                c.spec_filepath() == self.spec_filepath(),
                forall|a: int, b: int| 0 <= a < b < m ==> seq_lt(ov[a].keyword, ov[b].keyword),
                forall|a: int| 0 <= a < m ==> (match (#[trigger] ov[a]).kind {
                    UpdateKind::Add => self.spec_lookup(ov[a].keyword) is None,
                    UpdateKind::Modify => self.spec_lookup(ov[a].keyword) is Some,
                    UpdateKind::Remove => self.spec_lookup(ov[a].keyword) is Some,
                }),
                forall|k: Seq<char>| c.spec_lookup(k) == applied_val(
                    self.spec_lookup(k),
                    ops_lookup(ov.take(m as int), k),
                ),
            decreases n - m,
        {
            let ghost m0 = m as int;
            let kw = &ops[m].keyword;
            if m > 0 && !str_lt(ops[m - 1].keyword.as_str(), kw.as_str()) {
                proof {
                    assert(!seq_lt(ov[m0 - 1].keyword, ov[m0].keyword));
                    assert(!diff_sorted(ov));
                }
                return Err(SshdConfigError::InconsistentDiff);
            }
            proof {
                assert forall|a: int| 0 <= a < m0 implies seq_lt(ov[a].keyword, ov[m0].keyword) by {
                    if a < m0 - 1 {
                        lemma_seq_lt_trans(ov[a].keyword, ov[m0 - 1].keyword, ov[m0].keyword);
                    }
                }
                assert forall|a: int| 0 <= a < ov.take(m0).len() implies ov.take(m0)[a].keyword
                    != kw@ by {
                    assert(ov.take(m0)[a] == ov[a]);
                    lemma_seq_lt_trichotomy(ov[a].keyword, kw@);
                }
                lemma_ops_lookup_exists(ov.take(m0), kw@);
                assert(ops_lookup(ov.take(m0), kw@) is None);
                assert(c.spec_lookup(kw@) == self.spec_lookup(kw@));
            }
            let present = match c.find(kw.as_str()) {
                Some(_) => true,
                None => false,
            };
            let applicable = match ops[m].kind {
                UpdateKind::Add => !present,
                UpdateKind::Modify => present,
                UpdateKind::Remove => present,
            };
            if !applicable {
                proof {
                    assert(!(match ov[m0].kind {
                        UpdateKind::Add => self.spec_lookup(ov[m0].keyword) is None,
                        UpdateKind::Modify => self.spec_lookup(ov[m0].keyword) is Some,
                        UpdateKind::Remove => self.spec_lookup(ov[m0].keyword) is Some,
                    }));
                    assert(!ops_applicable(*self, ov));
                }
                return Err(SshdConfigError::InconsistentDiff);
            }
            let is_remove = match ops[m].kind {
                UpdateKind::Remove => true,
                _ => false,
            };
            if is_remove {
                c.remove(kw);
            } else {
                c.upsert(kw, entry_clone(&ops[m].entry));
            }
            proof {
                assert(ov.take(m0 + 1) =~= ov.take(m0).push(ov[m0]));
                assert forall|k: Seq<char>|
                    c.spec_lookup(k) == applied_val(
                        self.spec_lookup(k),
                        ops_lookup(ov.take(m0 + 1), k),
                    ) by {
                    lemma_ops_lookup_push(ov.take(m0), ov[m0], k);
                }
            }
            m += 1;
        }
        proof {
            assert(ov.take(n as int) =~= ov);
        }
        Ok(c)
    }

    /// Declare a keyword that the snapshot does not yet carry; the new entry
    /// is explicit.
    pub fn add(&mut self, keyword: &String, args: crate::keyword::KeywordType)
        requires
            old(self).wf(),
            old(self).spec_lookup(keyword@) is None,
        ensures
            final(self).wf(),
            final(self).spec_lookup(keyword@) == Some(
                EntryVal { value: args@, is_default: false },
            ),
            forall|k: Seq<char>|
                k != keyword@ ==> final(self).spec_lookup(k) == old(self).spec_lookup(k),
            final(self).spec_filepath() == old(self).spec_filepath(),
    {
        self.upsert(keyword, SubContainer { value: args, is_default: false });
    }

    /// Overwrite the value of a keyword the snapshot already carries; the
    /// replacement entry is explicit.
    pub fn modify(&mut self, keyword: &String, args: crate::keyword::KeywordType)
        requires
            old(self).wf(),
            old(self).spec_lookup(keyword@) is Some,
        ensures
            final(self).wf(),
            final(self).spec_lookup(keyword@) == Some(
                EntryVal { value: args@, is_default: false },
            ),
            forall|k: Seq<char>|
                k != keyword@ ==> final(self).spec_lookup(k) == old(self).spec_lookup(k),
            final(self).spec_filepath() == old(self).spec_filepath(),
    {
        self.upsert(keyword, SubContainer { value: args, is_default: false });
    }
}

/// The diff of a snapshot against itself reports nothing.
pub proof fn lemma_diff_self_empty(s: ConfigData, out: Seq<DiffEntryVal>)
    requires
        diff_describes(s, s, out),
    ensures
        out.len() == 0,
{
    if out.len() > 0 {
        let k = out[0].keyword;
        assert(classify(s.spec_lookup(k), s.spec_lookup(k)) == Some((out[0].kind, out[0].entry)));
        assert(false);
    }
}

/// Some index of `s` holds keyword `k`.
pub open spec fn has_key(s: Seq<DiffEntryVal>, k: Seq<char>) -> bool {
    exists|i: int| 0 <= i < s.len() && s[i].keyword == k
}

/// Two strictly sorted lists with the same keys, whose contents are a
/// function of the key, are the same list.
pub proof fn lemma_sorted_unique(o1: Seq<DiffEntryVal>, o2: Seq<DiffEntryVal>)
    requires
        diff_sorted(o1),
        diff_sorted(o2),
        forall|k: Seq<char>| has_key(o1, k) <==> has_key(o2, k),
        forall|i: int, j: int|
            0 <= i < o1.len() && 0 <= j < o2.len() && o1[i].keyword == o2[j].keyword ==> o1[i]
                == o2[j],
    ensures
        o1 == o2,
    decreases o1.len() + o2.len(),
{
    if o1.len() == 0 {
        if o2.len() > 0 {
            assert(has_key(o2, o2[0].keyword));
            assert(has_key(o1, o2[0].keyword));
            assert(false);
        }
        assert(o1 =~= o2);
    } else if o2.len() == 0 {
        assert(has_key(o1, o1[0].keyword));
        assert(has_key(o2, o1[0].keyword));
        assert(false);
    } else {
        // the heads carry the same key: each head's key occurs in the other
        // list, and anything above a head is strictly larger
        assert(has_key(o1, o1[0].keyword));
        assert(has_key(o2, o2[0].keyword));
        let j = choose|j: int| 0 <= j < o2.len() && o2[j].keyword == o1[0].keyword;
        let i = choose|i: int| 0 <= i < o1.len() && o1[i].keyword == o2[0].keyword;
        if i > 0 {
            assert(seq_lt(o1[0].keyword, o1[i].keyword));
            if j > 0 {
                assert(seq_lt(o2[0].keyword, o2[j].keyword));
                lemma_seq_lt_trans(o1[0].keyword, o1[i].keyword, o2[j].keyword);
                assert(seq_lt(o1[0].keyword, o1[0].keyword));
                lemma_seq_lt_trichotomy(o1[0].keyword, o1[0].keyword);
                assert(false);
            }
        }
        assert(o1[0].keyword == o2[0].keyword);
        assert(o1[0] == o2[0]);
        let t1 = o1.drop_first();
        let t2 = o2.drop_first();
        assert(diff_sorted(t1)) by {
            assert forall|p: int, q: int| 0 <= p < q < t1.len() implies seq_lt(
                t1[p].keyword,
                t1[q].keyword,
            ) by {
                assert(t1[p] == o1[p + 1]);
                assert(t1[q] == o1[q + 1]);
            }
        }
        assert(diff_sorted(t2)) by {
            assert forall|p: int, q: int| 0 <= p < q < t2.len() implies seq_lt(
                t2[p].keyword,
                t2[q].keyword,
            ) by {
                assert(t2[p] == o2[p + 1]);
                assert(t2[q] == o2[q + 1]);
            }
        }
        assert forall|k: Seq<char>| has_key(t1, k) <==> has_key(t2, k) by {
            if has_key(t1, k) {
                let p = choose|p: int| 0 <= p < t1.len() && t1[p].keyword == k;
                assert(o1[p + 1].keyword == k);
                assert(has_key(o1, k));
                assert(seq_lt(o1[0].keyword, k));
                let q = choose|q: int| 0 <= q < o2.len() && o2[q].keyword == k;
                lemma_seq_lt_trichotomy(o2[0].keyword, k);
                assert(q != 0);
                assert(t2[q - 1].keyword == k);
                assert(has_key(t2, k));
            }
            if has_key(t2, k) {
                let q = choose|q: int| 0 <= q < t2.len() && t2[q].keyword == k;
                assert(o2[q + 1].keyword == k);
                assert(has_key(o2, k));
                assert(seq_lt(o2[0].keyword, k));
                let p = choose|p: int| 0 <= p < o1.len() && o1[p].keyword == k;
                lemma_seq_lt_trichotomy(o1[0].keyword, k);
                assert(p != 0);
                assert(t1[p - 1].keyword == k);
                assert(has_key(t1, k));
            }
        }
        assert forall|p: int, q: int|
            0 <= p < t1.len() && 0 <= q < t2.len() && t1[p].keyword == t2[q].keyword implies t1[p]
            == t2[q] by {
            assert(t1[p] == o1[p + 1]);
            assert(t2[q] == o2[q + 1]);
        }
        lemma_sorted_unique(t1, t2);
        assert(o1.len() == o2.len());
        assert forall|m: int| 0 <= m < o1.len() implies o1[m] == o2[m] by {
            if m > 0 {
                assert(o1[m] == t1[m - 1]);
                assert(o2[m] == t2[m - 1]);
            }
        }
        assert(o1 =~= o2);
    }
}

/// The diff is a function of the two snapshots alone: any two runs report
/// the identical ordered output.
pub proof fn lemma_diff_deterministic(
    base: ConfigData,
    target: ConfigData,
    o1: Seq<DiffEntryVal>,
    o2: Seq<DiffEntryVal>,
)
    requires
        diff_describes(base, target, o1),
        diff_describes(base, target, o2),
    ensures
        o1 == o2,
{
    assert forall|k: Seq<char>| has_key(o1, k) <==> has_key(o2, k) by {
        if has_key(o1, k) {
            let i = choose|i: int| 0 <= i < o1.len() && o1[i].keyword == k;
            assert(classify(base.spec_lookup(k), target.spec_lookup(k)) is Some);
            let j = choose|j: int| 0 <= j < o2.len() && o2[j].keyword == k;
            assert(has_key(o2, k));
        }
        if has_key(o2, k) {
            let j = choose|j: int| 0 <= j < o2.len() && o2[j].keyword == k;
            assert(classify(base.spec_lookup(k), target.spec_lookup(k)) is Some);
            let i = choose|i: int| 0 <= i < o1.len() && o1[i].keyword == k;
            assert(has_key(o1, k));
        }
    }
    assert forall|i: int, j: int|
        0 <= i < o1.len() && 0 <= j < o2.len() && o1[i].keyword == o2[j].keyword implies o1[i]
        == o2[j] by {
        let k = o1[i].keyword;
        assert(classify(base.spec_lookup(k), target.spec_lookup(k)) == Some(
            (o1[i].kind, o1[i].entry),
        ));
        assert(classify(base.spec_lookup(k), target.spec_lookup(k)) == Some(
            (o2[j].kind, o2[j].entry),
        ));
    }
    lemma_sorted_unique(o1, o2);
}

/// A diff the reconciler itself produced always fits its base: applying it
/// cannot fail.
pub proof fn lemma_diff_applicable(base: ConfigData, target: ConfigData, out: Seq<DiffEntryVal>)
    requires
        diff_describes(base, target, out),
    ensures
        diff_sorted(out),
        ops_applicable(base, out),
{
    assert forall|i: int| 0 <= i < out.len() implies (match (#[trigger] out[i]).kind {
        UpdateKind::Add => base.spec_lookup(out[i].keyword) is None,
        UpdateKind::Modify => base.spec_lookup(out[i].keyword) is Some,
        UpdateKind::Remove => base.spec_lookup(out[i].keyword) is Some,
    }) by {
        let k = out[i].keyword;
        assert(classify(base.spec_lookup(k), target.spec_lookup(k)) == Some(
            (out[i].kind, out[i].entry),
        ));
    }
}

/// Applying the diff of `base` against `target` converges: the reconciled
/// snapshot has an empty diff against `target`.
pub proof fn lemma_apply_diff_converges(
    base: ConfigData,
    target: ConfigData,
    out: Seq<DiffEntryVal>,
    c: ConfigData,
)
    requires
        diff_describes(base, target, out),
        forall|k: Seq<char>| c.spec_lookup(k) == applied_val(
            base.spec_lookup(k),
            ops_lookup(out, k),
        ),
    ensures
        forall|k: Seq<char>| classify(c.spec_lookup(k), target.spec_lookup(k)) is None,
{
    assert forall|k: Seq<char>|
        classify(c.spec_lookup(k), target.spec_lookup(k)) is None by {
        lemma_ops_lookup_classify(base, target, out, k);
    }
}

/// An empty classification everywhere means an empty diff report.
pub proof fn lemma_no_change_empty_diff(
    base: ConfigData,
    target: ConfigData,
    out: Seq<DiffEntryVal>,
)
    requires
        diff_describes(base, target, out),
        forall|k: Seq<char>| classify(base.spec_lookup(k), target.spec_lookup(k)) is None,
    ensures
        out.len() == 0,
{
    if out.len() > 0 {
        assert(classify(base.spec_lookup(out[0].keyword), target.spec_lookup(out[0].keyword))
            == Some((out[0].kind, out[0].entry)));
        assert(false);
    }
}

/// Declaring a keyword explicitly at its default value is classified as no
/// change, yet the import flips its defaultness; removing or reverting that
/// keyword afterwards is then a real `Remove`, not a no-op.
pub proof fn lemma_default_masking(v: KwVal)
    ensures
        classify(
            Some(EntryVal { value: v, is_default: true }),
            Some(EntryVal { value: v, is_default: false }),
        ) is None,
        merge_step(Some(EntryVal { value: v, is_default: true }), v, true) == Some(
            EntryVal { value: v, is_default: false },
        ),
        classify(Some(EntryVal { value: v, is_default: false }), None) == Some(
            (UpdateKind::Remove, EntryVal { value: v, is_default: false }),
        ),
        classify(
            Some(EntryVal { value: v, is_default: false }),
            Some(EntryVal { value: v, is_default: true }),
        ) == Some((UpdateKind::Remove, EntryVal { value: v, is_default: true })),
{
    assert(shape_coerce(Some(v), v) == Some(v)) by {
        match v {
            KwVal::Flag(_) => {},
            KwVal::Single(_) => {},
            KwVal::Multi(_) => {},
            KwVal::Absent => {},
        }
    }
}

} // verus!
