use vstd::prelude::*;

use crate::codec::{
    decode_directive_text, encode_explicit_directive_text, explicit_pairs, parse_text, render_text,
};
use crate::error::SshdConfigError;
use crate::fingerprint::{ManagedFileRecord, fingerprint, fingerprint_of, integrity_ok};
use crate::json::{export_json, decode_json_text, parse_json, render_json};
use crate::keyword::{EntryVal, KeywordType, KwVal, UpdateKind, keyword_type_clone};
use crate::reconcile::{
    DiffEntry, applied_val, classify, diff_describes, diff_view, lemma_diff_applicable,
    ops_lookup,
};
use crate::snapshot::{ConfigData, merge_val, sorted_keys};
use crate::strorder::{lemma_seq_lt_trans, seq_lt, str_lt};

verus! {

impl ConfigData {
    /// Import daemon-native directive text: decode it and merge every pair
    /// as explicitly declared. On any failure the snapshot is unchanged.
    pub fn import_sshd_config(&mut self, data: &String) -> (r: Result<(), SshdConfigError>)
        requires
            old(self).wf(),
        ensures
            final(self).wf(),
            final(self).spec_filepath() == old(self).spec_filepath(),
            match r {
                Ok(()) => match parse_text(data@) {
                    Some(ps) => old(self).merge_ok(ps, true) && forall|k: Seq<char>|
                        final(self).spec_lookup(k) == merge_val(
                            old(self).spec_lookup(k),
                            ps,
                            true,
                            k,
                        ),
                    None => false,
                },
                Err(e) => *final(self) == *old(self) && (match parse_text(data@) {
                    Some(ps) => e == SshdConfigError::MalformedKeyword && !old(self).merge_ok(
                        ps,
                        true,
                    ),
                    None => e == SshdConfigError::ParseError,
                }),
            },
    {
        let pairs = match decode_directive_text(data) {
            Ok(ps) => ps,
            Err(e) => {
                return Err(e);
            },
        };
        self.merge_explicit(&pairs)
    }

    /// Import a structured (flat JSON object) document: decode it and merge
    /// every pair as explicitly declared. On any failure the snapshot is
    /// unchanged.
    pub fn import_json(&mut self, data: &String) -> (r: Result<(), SshdConfigError>)
        requires
            old(self).wf(),
        ensures
            final(self).wf(),
            final(self).spec_filepath() == old(self).spec_filepath(),
            match r {
                Ok(()) => match parse_json(data@) {
                    Some(ps) => old(self).merge_ok(ps, true) && forall|k: Seq<char>|
                        final(self).spec_lookup(k) == merge_val(
                            old(self).spec_lookup(k),
                            ps,
                            true,
                            k,
                        ),
                    None => false,
                },
                Err(e) => *final(self) == *old(self) && (match parse_json(data@) {
                    Some(ps) => e == SshdConfigError::MalformedKeyword && !old(self).merge_ok(
                        ps,
                        true,
                    ),
                    None => e == SshdConfigError::ParseError,
                }),
            },
    {
        let pairs = match decode_json_text(data) {
            Ok(ps) => ps,
            Err(e) => {
                return Err(e);
            },
        };
        self.merge_explicit(&pairs)
    }

    /// The integrity guard over this snapshot's managed file: the recorded
    /// fingerprint must match the bytes now on disk.
    pub fn file_check(&self, record: &ManagedFileRecord, content: &Vec<u8>) -> (r: bool)
        ensures
            r == integrity_ok(*record, content@),
    {
        let h = fingerprint(content);
        h == record.fingerprint
    }

    /// Runtime check of the sorted-keys invariant, for callers that receive
    /// a snapshot of unknown provenance.
    pub fn check_wf(&self) -> (r: bool)
        ensures
            r == self.wf(),
    {
        let n = self.config_lookup.len();
        if n == 0 {
            return true;
        }
        let mut i: usize = 0;
        while i + 1 < n
            invariant
                i < n,
                n == self.config_lookup.len(),
                forall|j: int| 0 <= j < i ==> seq_lt(
                    (#[trigger] self.entries()[j]).0,
                    self.entries()[j + 1].0,
                ),
            decreases n - i,
        {
            if !str_lt(self.config_lookup[i].0.as_str(), self.config_lookup[i + 1].0.as_str()) {
                proof {
                    assert(!seq_lt(self.entries()[i as int].0, self.entries()[i as int + 1].0));
                }
                return false;
            }
            i += 1;
        }
        proof {
            lemma_adjacent_sorted(self.entries());
        }
        true
    }
}

/// Adjacent ascent gives full pairwise ascent.
proof fn lemma_adjacent_sorted(s: Seq<(Seq<char>, EntryVal)>)
    requires
        forall|j: int| 0 <= j < s.len() - 1 ==> seq_lt((#[trigger] s[j]).0, s[j + 1].0),
    ensures
        sorted_keys(s),
{
    assert forall|i: int, j: int| 0 <= i < j < s.len() implies seq_lt(s[i].0, s[j].0) by {
        lemma_chain(s, i, j);
    }
}

/// Transitive chain from adjacent ascent.
proof fn lemma_chain(s: Seq<(Seq<char>, EntryVal)>, i: int, j: int)
    requires
        forall|p: int| 0 <= p < s.len() - 1 ==> seq_lt((#[trigger] s[p]).0, s[p + 1].0),
        0 <= i < j < s.len(),
    ensures
        seq_lt(s[i].0, s[j].0),
    decreases j - i,
{
    if j == i + 1 {
    } else {
        lemma_chain(s, i, j - 1);
        lemma_seq_lt_trans(s[i].0, s[j - 1].0, s[j].0);
    }
}

/// One keyword's row in the diff report `test` produces: the value the
/// current snapshot holds, the value the desired snapshot holds, and the
/// change kind.
pub struct TestReport {
    pub keyword: String,
    pub from: Option<KeywordType>,
    pub to: Option<KeywordType>,
    pub kind: UpdateKind,
}

/// The reports mirror the diff row for row: same keyword and kind, `from`
/// the base snapshot's value and `to` the target snapshot's value.
pub open spec fn reports_describe(
    base: ConfigData,
    target: ConfigData,
    out: Seq<crate::reconcile::DiffEntryVal>,
    reports: Seq<TestReport>,
) -> bool {
    &&& reports.len() == out.len()
    &&& forall|i: int| 0 <= i < out.len() ==> {
        let rp = #[trigger] reports[i];
        &&& rp.keyword@ == out[i].keyword
        &&& rp.kind == out[i].kind
        &&& (match base.spec_lookup(out[i].keyword) {
            Some(e) => rp.from matches Some(f) && f@ == e.value,
            None => rp.from is None,
        })
        &&& (match target.spec_lookup(out[i].keyword) {
            Some(e) => rp.to matches Some(t) && t@ == e.value,
            None => rp.to is None,
        })
    }
}

/// What `set` decides after the guard and the diff: nothing to do, or a
/// staged change awaiting validation.
pub enum SetStage {
    /// The desired state already matches: no backup, no write, no reload.
    NoChange,
    /// The reconciled snapshot and the candidate file text to validate.
    Staged(StagedSet),
}

/// A computed change: the diff, the reconciled snapshot, and the exact text
/// to stage to a temporary file for the external validator.
#[derive(Debug)]
pub struct StagedSet {
    pub ops: Vec<DiffEntry>,
    pub reconciled: ConfigData,
    pub candidate_text: String,
}

/// What the caller must do to commit after the validator accepted: copy the
/// pristine backup first if none exists yet, write `file_text` to the
/// managed path by write-then-rename, and persist `new_record`.
#[derive(Debug)]
pub struct CommitPlan {
    pub make_backup: bool,
    pub file_text: String,
    pub new_record: ManagedFileRecord,
}

impl ConfigData {
    /// The read-only diff report: integrity guard, then the diff of `self`
    /// (current) against `other` (desired), row for row. Nothing is mutated.
    pub fn test(&self, other: &ConfigData, record: &ManagedFileRecord, content: &Vec<u8>) -> (r:
        Result<Vec<TestReport>, SshdConfigError>)
        requires
            self.wf(),
            other.wf(),
        ensures
            match r {
                Ok(reports) => integrity_ok(*record, content@) && exists|
                    out: Seq<crate::reconcile::DiffEntryVal>,
                |
                    diff_describes(*self, *other, out) && reports_describe(
                        *self,
                        *other,
                        out,
                        reports@,
                    ),
                Err(e) => e == SshdConfigError::TamperedFile && !integrity_ok(*record, content@),
            },
    {
        if !self.file_check(record, content) {
            return Err(SshdConfigError::TamperedFile);
        }
        let ops = self.compare(other);
        let ghost out = diff_view(ops@);
        let mut reports: Vec<TestReport> = Vec::new();
        let n = ops.len();
        let mut i: usize = 0;
        while i < n
            invariant
                i <= n,
                n == ops.len(),
                self.wf(),
                other.wf(),
                out == diff_view(ops@),
                reports.len() == i,
                forall|j: int| 0 <= j < i ==> {
                    let rp = #[trigger] reports@[j];
                    &&& rp.keyword@ == out[j].keyword
                    &&& rp.kind == out[j].kind
                    &&& (match self.spec_lookup(out[j].keyword) {
                        Some(e) => rp.from matches Some(f) && f@ == e.value,
                        None => rp.from is None,
                    })
                    &&& (match other.spec_lookup(out[j].keyword) {
                        Some(e) => rp.to matches Some(t) && t@ == e.value,
                        None => rp.to is None,
                    })
                },
            decreases n - i,
        {
            let kw = &ops[i].keyword;
            let from = match self.find(kw.as_str()) {
                Some(e) => Some(keyword_type_clone(&e.value)),
                None => None,
            };
            let to = match other.find(kw.as_str()) {
                Some(e) => Some(keyword_type_clone(&e.value)),
                None => None,
            };
            let kind = ops[i].kind;
            reports.push(TestReport { keyword: kw.clone(), from, to, kind });
            i += 1;
        }
        proof {
            assert(diff_describes(*self, *other, out));
            assert(reports_describe(*self, *other, out, reports@));
        }
        Ok(reports)
    }

    /// The first half of `set`: integrity guard, diff, reconciliation, and
    /// the candidate text to stage. An empty diff short-circuits to
    /// `NoChange` with nothing to write.
    pub fn set_stage(&self, other: &ConfigData, record: &ManagedFileRecord, content: &Vec<u8>)
        -> (r: Result<SetStage, SshdConfigError>)
        requires
            self.wf(),
            other.wf(),
        ensures
            match r {
                Ok(stage) => integrity_ok(*record, content@) && (match stage {
                    SetStage::NoChange => forall|k: Seq<char>|
                        classify(self.spec_lookup(k), other.spec_lookup(k)) is None,
                    SetStage::Staged(st) => st.ops@.len() > 0 && diff_describes(
                        *self,
                        *other,
                        diff_view(st.ops@),
                    ) && st.reconciled.wf() && st.reconciled.spec_filepath()
                        == self.spec_filepath() && (forall|k: Seq<char>|
                        st.reconciled.spec_lookup(k) == applied_val(
                            self.spec_lookup(k),
                            ops_lookup(diff_view(st.ops@), k),
                        )) && st.candidate_text@ == render_text(
                        explicit_pairs(st.reconciled.entries()),
                    ),
                }),
                Err(e) => e == SshdConfigError::TamperedFile && !integrity_ok(*record, content@),
            },
    {
        if !self.file_check(record, content) {
            return Err(SshdConfigError::TamperedFile);
        }
        let ops = self.compare(other);
        if ops.len() == 0 {
            proof {
                assert forall|k: Seq<char>|
                    classify(self.spec_lookup(k), other.spec_lookup(k)) is None by {
                    if classify(self.spec_lookup(k), other.spec_lookup(k)) is Some {
                        let i = choose|i: int|
                            0 <= i < diff_view(ops@).len() && diff_view(ops@)[i].keyword == k;
                    }
                }
            }
            return Ok(SetStage::NoChange);
        }
        let reconciled = match self.update(&ops) {
            Ok(c) => c,
            Err(e) => {
                proof {
                    lemma_diff_applicable(*self, *other, diff_view(ops@));
                    assert(false);
                }
                return Err(e);
            },
        };
        let candidate_text = encode_explicit_directive_text(&reconciled);
        Ok(SetStage::Staged(StagedSet { ops, reconciled, candidate_text }))
    }
}

/// The second half of `set`, after the external validator ran on the staged
/// candidate file: refusal leaves everything untouched; acceptance yields
/// the commit plan, with the backup made at most once and the fingerprint
/// of the exact bytes to be written recorded.
pub fn commit_plan(staged: &StagedSet, validator_ok: bool, record: &ManagedFileRecord) -> (r:
    Result<CommitPlan, SshdConfigError>)
    ensures
        match r {
            Ok(plan) => validator_ok && plan.file_text@ == staged.candidate_text@
                && plan.make_backup == !record.backup_exists && plan.new_record.backup_exists
                && plan.new_record.fingerprint == fingerprint_of(
                vstd::utf8::encode_utf8(staged.candidate_text@),
            ),
            Err(e) => e == SshdConfigError::ValidationRejected && !validator_ok,
        },
{
    if !validator_ok {
        return Err(SshdConfigError::ValidationRejected);
    }
    let bytes = staged.candidate_text.as_str().as_bytes_vec();
    let h = fingerprint(&bytes);
    Ok(
        CommitPlan {
            make_backup: !record.backup_exists,
            file_text: staged.candidate_text.clone(),
            new_record: ManagedFileRecord { fingerprint: h, backup_exists: true },
        },
    )
}

/// The last step of `set`: the file is already committed, so a failed
/// reload is reported as its own non-fatal kind and nothing is rolled back.
pub fn finish_after_reload(reload_ok: bool) -> (r: Result<(), SshdConfigError>)
    ensures
        match r {
            Ok(()) => reload_ok,
            Err(e) => e == SshdConfigError::ReloadFailed && !reload_ok,
        },
{
    if reload_ok {
        Ok(())
    } else {
        Err(SshdConfigError::ReloadFailed)
    }
}

/// The operation surface of the reconciler. `ConfigData` implements it; the
/// contracts hold whenever the snapshots are well formed.
pub trait Invoke {
    /// Serialize the current snapshot, optionally filtered to the requested
    /// keyword names; unknown names are reported, not dropped.
    fn get(&self, keywords: &Option<Vec<String>>, record: &ManagedFileRecord, content: &Vec<u8>)
        -> Result<String, SshdConfigError>;

    /// Compute the staged change toward the desired snapshot.
    fn set(&self, other: &ConfigData, record: &ManagedFileRecord, content: &Vec<u8>) -> Result<
        SetStage,
        SshdConfigError,
    >;

    /// Report the diff toward the desired snapshot; mutates nothing.
    fn test(&self, other: &ConfigData, record: &ManagedFileRecord, content: &Vec<u8>) -> Result<
        Vec<TestReport>,
        SshdConfigError,
    >;
}

impl Invoke for ConfigData {
    fn get(&self, keywords: &Option<Vec<String>>, record: &ManagedFileRecord, content: &Vec<u8>)
        -> (r: Result<String, SshdConfigError>)
        ensures
            self.wf() ==> match r {
                Ok(doc) => integrity_ok(*record, content@) && (match keywords {
                    None => doc@ == render_json(crate::codec::entry_pairs(self.entries())),
                    Some(ns) => doc@ == render_json(
                        Seq::new(
                            ns@.len(),
                            |i: int|
                                (
                                    ns@[i]@,
                                    match self.spec_lookup(ns@[i]@) {
                                        Some(e) => e.value,
                                        None => KwVal::Absent,
                                    },
                                ),
                        ),
                    ),
                }),
                Err(e) => (e == SshdConfigError::TamperedFile && !integrity_ok(*record, content@))
                    || (e == SshdConfigError::UnknownKeyword && integrity_ok(*record, content@)
                    && (keywords matches Some(ns) && exists|i: int|
                    0 <= i < ns@.len() && self.spec_lookup(#[trigger] ns@[i]@) is None)),
            },
    {
        if !self.check_wf() {
            return Err(SshdConfigError::InconsistentDiff);
        }
        if !self.file_check(record, content) {
            return Err(SshdConfigError::TamperedFile);
        }
        export_json(self, keywords)
    }

    fn set(&self, other: &ConfigData, record: &ManagedFileRecord, content: &Vec<u8>) -> (r:
        Result<SetStage, SshdConfigError>)
        ensures
            self.wf() && other.wf() ==> match r {
                Ok(stage) => integrity_ok(*record, content@) && (match stage {
                    SetStage::NoChange => forall|k: Seq<char>|
                        classify(self.spec_lookup(k), other.spec_lookup(k)) is None,
                    SetStage::Staged(st) => st.ops@.len() > 0 && diff_describes(
                        *self,
                        *other,
                        diff_view(st.ops@),
                    ) && st.reconciled.wf() && (forall|k: Seq<char>|
                        st.reconciled.spec_lookup(k) == applied_val(
                            self.spec_lookup(k),
                            ops_lookup(diff_view(st.ops@), k),
                        )) && st.candidate_text@ == render_text(
                        explicit_pairs(st.reconciled.entries()),
                    ),
                }),
                Err(e) => e == SshdConfigError::TamperedFile && !integrity_ok(*record, content@),
            },
    {
        if !self.check_wf() || !other.check_wf() {
            return Err(SshdConfigError::InconsistentDiff);
        }
        self.set_stage(other, record, content)
    }

    fn test(&self, other: &ConfigData, record: &ManagedFileRecord, content: &Vec<u8>) -> (r:
        Result<Vec<TestReport>, SshdConfigError>)
        ensures
            self.wf() && other.wf() ==> match r {
                Ok(reports) => integrity_ok(*record, content@) && exists|
                    out: Seq<crate::reconcile::DiffEntryVal>,
                |
                    diff_describes(*self, *other, out) && reports_describe(
                        *self,
                        *other,
                        out,
                        reports@,
                    ),
                Err(e) => e == SshdConfigError::TamperedFile && !integrity_ok(*record, content@),
            },
    {
        if !self.check_wf() || !other.check_wf() {
            return Err(SshdConfigError::InconsistentDiff);
        }
        ConfigData::test(self, other, record, content)
    }
}

/// A model of the three files the commit protocol touches. The methods are
/// the protocol's steps; their contracts show that nothing before the final
/// rename changes the managed file, and that the rename installs the staged
/// bytes whole.
pub struct DiskModel {
    pub managed: Vec<u8>,
    pub temp: Option<Vec<u8>>,
    pub backup: Option<Vec<u8>>,
}

impl DiskModel {
    /// A disk whose managed file holds `managed`, with no temporary file
    /// and no backup yet.
    pub fn start(managed: Vec<u8>) -> (r: DiskModel)
        ensures
            r.managed@ == managed@,
            r.temp is None,
            r.backup is None,
    {
        DiskModel { managed, temp: None, backup: None }
    }

    /// Stage the candidate bytes to the temporary file. The managed file and
    /// the backup are untouched: a crash after this step loses nothing.
    pub fn write_temp(&mut self, content: Vec<u8>)
        ensures
            final(self).managed@ == old(self).managed@,
            final(self).backup == old(self).backup,
            (final(self).temp matches Some(t) && t@ == content@),
    {
        self.temp = Some(content);
    }

    /// Copy the pristine managed file to the backup, only if none exists:
    /// later commits never overwrite the first backup.
    pub fn make_backup(&mut self)
        ensures
            final(self).managed@ == old(self).managed@,
            final(self).temp == old(self).temp,
            old(self).backup is Some ==> final(self).backup == old(self).backup,
            old(self).backup is None ==> (final(self).backup matches Some(b) && b@ == old(
                self,
            ).managed@),
    {
        match &self.backup {
            Some(_) => {},
            None => {
                let mut copy: Vec<u8> = Vec::new();
                let n = self.managed.len();
                let mut i: usize = 0;
                while i < n
                    invariant
                        i <= n,
                        n == self.managed.len(),
                        copy@ == self.managed@.take(i as int),
                    decreases n - i,
                {
                    copy.push(self.managed[i]);
                    proof {
                        assert(self.managed@.take(i + 1) =~= self.managed@.take(i as int).push(
                            self.managed@[i as int],
                        ));
                    }
                    i += 1;
                }
                proof {
                    assert(self.managed@.take(n as int) =~= self.managed@);
                }
                self.backup = Some(copy);
            },
        }
    }

    /// The atomic replace: the staged bytes become the managed file in one
    /// step, so no crash leaves a half-written managed file.
    pub fn commit_rename(&mut self)
        requires
            old(self).temp is Some,
        ensures
            final(self).managed == old(self).temp.unwrap(),
            final(self).temp is None,
            final(self).backup == old(self).backup,
    {
        let mut t: Option<Vec<u8>> = None;
        core::mem::swap(&mut t, &mut self.temp);
        match t {
            Some(content) => {
                self.managed = content;
            },
            None => {},
        }
    }

    /// Drop the temporary file, as after a rejected validation: the managed
    /// file and the backup are untouched.
    pub fn discard_temp(&mut self)
        ensures
            final(self).managed@ == old(self).managed@,
            final(self).backup == old(self).backup,
            final(self).temp is None,
    {
        self.temp = None;
    }
}

} // verus!
