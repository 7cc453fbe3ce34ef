//! Full-document backups: the destinations, the settings, and the decisions
//! a backup run makes (file name, what each destination is handed, which old
//! backups a retention limit removes). Copying, encrypting and running
//! `scp`/`rclone` are left to the caller, which reports back per destination.

use vstd::prelude::*;
use crate::civil::{civil_from_days, civil_from_days_exec};
use crate::order::{sort_chars, sorted_names};
use crate::text::{
    chars_of, chars_of_all, concat_chars, decimal, push_decimal, ends_with, ends_with_exec, starts_with,
    starts_with_exec, strings_of_all, matches_at, matches_at_exec, push_padded, string_of, sub_chars,
    trim, trim_chars, trim_end_char, trim_end_char_exec, zero_pad,
};

verus! {

/// Where a backup goes. Each kind interprets `target` differently.
#[derive(Clone, Copy, PartialEq, Eq, Structural)]
pub enum DestKind {
    /// A local/mounted directory path.
    Disk,
    /// `[user@]host:/dir` reached with `scp` (SSH keys).
    Sftp,
    /// An `rclone` remote path `remote:dir` (S3, Drive, Dropbox, …).
    Rclone,
}

/// The human label of a destination kind.
pub open spec fn dest_kind_label(k: DestKind) -> Seq<char> {
    match k {
        DestKind::Disk => "Disk"@,
        DestKind::Sftp => "Network (SFTP)"@,
        DestKind::Rclone => "Cloud (rclone)"@,
    }
}

impl DestKind {
    /// The human label shown for this kind.
    pub fn label(self) -> (r: &'static str)
        ensures
            r@ == dest_kind_label(self),
    {
        match self {
            DestKind::Disk => "Disk",
            DestKind::Sftp => "Network (SFTP)",
            DestKind::Rclone => "Cloud (rclone)",
        }
    }
}

/// The default of a destination's `enabled` flag when a saved setting lacks it.
pub fn default_true() -> (r: bool)
    ensures
        r,
{
    true
}

/// One backup destination.
pub struct BackupDest {
    pub kind: DestKind,
    pub name: String,
    /// Disk: a directory. SFTP: `[user@]host:/dir`. Rclone: `remote:dir`.
    pub target: String,
    pub enabled: bool,
}

/// A destination's status-line label: its name if set, else its target,
/// else `(unset)`, followed by its kind in brackets.
pub open spec fn spec_dest_display(name: Seq<char>, target: Seq<char>, kind: DestKind) -> Seq<
    char,
> {
    let base = if trim(name).len() == 0 {
        target
    } else {
        name
    };
    (if base.len() == 0 {
        "(unset)"@
    } else {
        base
    }) + " ["@ + dest_kind_label(kind) + "]"@
}

impl BackupDest {
    /// A new, enabled destination of the given kind with no name or target.
    pub fn new(kind: DestKind) -> (r: Self)
        ensures
            r.kind == kind,
            r.name@.len() == 0,
            r.target@.len() == 0,
            r.enabled,
    {
        BackupDest { kind, name: String::new(), target: String::new(), enabled: true }
    }

    /// A human label for status lines: the name if set, else the target.
    pub fn display(&self) -> (r: String)
        ensures
            r@ == spec_dest_display(self.name@, self.target@, self.kind),
    {
        let name = chars_of(self.name.as_str());
        let base = if trim_chars(&name).len() == 0 {
            chars_of(self.target.as_str())
        } else {
            name
        };
        let shown = if base.len() == 0 {
            chars_of("(unset)")
        } else {
            base
        };
        let open = chars_of(" [");
        let label = chars_of(self.kind.label());
        let close = chars_of("]");
        let out = concat_chars(&concat_chars(&concat_chars(&shown, &open), &label), &close);
        string_of(&out)
    }
}

/// Persisted backup settings.
pub struct BackupConfig {
    /// Master switch for scheduled backups. "Back up now" works regardless.
    pub enabled: bool,
    /// Minutes between scheduled backups. 0 = manual only.
    pub interval_mins: u64,
    /// Keep only the newest N backups per disk destination (0 = keep all).
    pub retention: usize,
    pub encrypt: bool,
    /// gpg symmetric passphrase, used only when `encrypt` is on.
    pub passphrase: String,
    pub destinations: Vec<BackupDest>,
}

impl Default for BackupConfig {
    fn default() -> (r: Self)
        ensures
            !r.enabled,
            r.interval_mins == 360,
            r.retention == 14,
            !r.encrypt,
            r.passphrase@.len() == 0,
            r.destinations@.len() == 0,
    {
        BackupConfig {
            enabled: false,
            interval_mins: 360,
            retention: 14,
            encrypt: false,
            passphrase: String::new(),
            destinations: Vec::new(),
        }
    }
}

/// Positions, in order, of the enabled destinations among the first `n`.
pub open spec fn enabled_positions(ds: Seq<BackupDest>, n: int) -> Seq<int>
    decreases n,
{
    if n <= 0 {
        seq![]
    } else {
        let p = enabled_positions(ds, n - 1);
        if ds[n - 1].enabled {
            p.push(n - 1)
        } else {
            p
        }
    }
}

/// Positions, in order, of all enabled destinations.
pub open spec fn enabled_all(cfg: &BackupConfig) -> Seq<int> {
    enabled_positions(cfg.destinations@, cfg.destinations@.len() as int)
}

proof fn lemma_enabled_positions(ds: Seq<BackupDest>, n: int)
    requires
        0 <= n <= ds.len(),
    ensures
        forall|k: int|
            0 <= k < enabled_positions(ds, n).len() ==> 0 <= #[trigger] enabled_positions(
                ds,
                n,
            )[k] < n && ds[enabled_positions(ds, n)[k]].enabled,
    decreases n,
{
    if n > 0 {
        lemma_enabled_positions(ds, n - 1);
    }
}

/// Whether an enabled destination's delivery is its own (`Disk`) rather than
/// a command run on a staged copy.
pub open spec fn any_remote(cfg: &BackupConfig) -> bool {
    exists|k: int|
        0 <= k < enabled_all(cfg).len() && cfg.destinations@[#[trigger] enabled_all(cfg)[k]].kind
            != DestKind::Disk
}

impl BackupConfig {
    /// Positions of the enabled destinations, in order.
    pub fn enabled_dests(&self) -> (r: Vec<usize>)
        ensures
            r@.len() == enabled_all(self).len(),
            forall|k: int| 0 <= k < r@.len() ==> r@[k] as int == #[trigger] enabled_all(self)[k],
    {
        let mut r: Vec<usize> = Vec::new();
        let mut i: usize = 0;
        while i < self.destinations.len()
            invariant
                i <= self.destinations@.len(),
                r@.len() == enabled_positions(self.destinations@, i as int).len(),
                forall|k: int|
                    0 <= k < r@.len() ==> r@[k] as int == #[trigger] enabled_positions(
                        self.destinations@,
                        i as int,
                    )[k],
            decreases self.destinations@.len() - i,
        {
            if self.destinations[i].enabled {
                r.push(i);
            }
            i += 1;
        }
        r
    }
}

/// Outcome of delivering to one destination.
pub struct DestOutcome {
    pub dest: String,
    pub ok: bool,
    pub detail: String,
}

/// The outcome recorded for a destination once its delivery has run: `ok`
/// with detail `ok`, or the error.
pub fn delivery_outcome(dest: String, res: Result<(), String>) -> (r: DestOutcome)
    ensures
        r.dest@ == dest@,
        r.ok == res is Ok,
        match res {
            Ok(_) => r.detail@ == "ok"@,
            Err(e) => r.detail@ == e@,
        },
{
    let ok = res.is_ok();
    let detail = match res {
        Ok(_) => "ok".to_owned(),
        Err(e) => e,
    };
    DestOutcome { dest, ok, detail }
}

/// How many of `outs` failed.
pub open spec fn failures(outs: Seq<DestOutcome>) -> nat
    decreases outs.len(),
{
    if outs.len() == 0 {
        0
    } else {
        failures(outs.drop_last()) + if outs.last().ok {
            0nat
        } else {
            1nat
        }
    }
}

/// The position of the first failed outcome at or after `i`.
pub open spec fn first_failure(outs: Seq<DestOutcome>, i: int) -> int
    decreases outs.len() - i,
{
    if i < 0 || i >= outs.len() {
        outs.len() as int
    } else if !outs[i].ok {
        i
    } else {
        first_failure(outs, i + 1)
    }
}

/// The status line a finished backup run leaves: all good, or how many of
/// how many failed and the first failure's destination and detail.
pub open spec fn spec_backup_summary(outs: Seq<DestOutcome>) -> Seq<char> {
    if failures(outs) == 0 {
        "Backed up to "@ + decimal(outs.len()) + " destination(s) OK"@
    } else {
        let f = outs[first_failure(outs, 0)];
        "Backup: "@ + decimal(failures(outs)) + "/"@ + decimal(outs.len()) + " failed — "@ + f.dest@
            + ": "@ + f.detail@
    }
}

proof fn lemma_first_failure(outs: Seq<DestOutcome>, i: int)
    requires
        0 <= i <= outs.len(),
    ensures
        i <= first_failure(outs, i) <= outs.len(),
        first_failure(outs, i) < outs.len() ==> !outs[first_failure(outs, i)].ok,
        forall|k: int| i <= k < first_failure(outs, i) ==> outs[k].ok,
    decreases outs.len() - i,
{
    if i < outs.len() && outs[i].ok {
        lemma_first_failure(outs, i + 1);
    }
}

proof fn lemma_failures_none(outs: Seq<DestOutcome>)
    requires
        first_failure(outs, 0) == outs.len(),
    ensures
        failures(outs) == 0,
    decreases outs.len(),
{
    lemma_first_failure(outs, 0);
    if outs.len() > 0 {
        let rest = outs.drop_last();
        lemma_first_failure(rest, 0);
        if first_failure(rest, 0) < rest.len() {
            assert(rest[first_failure(rest, 0)] == outs[first_failure(rest, 0)]);
        }
        lemma_failures_bound(rest);
        lemma_failures_none(rest);
    }
}

proof fn lemma_failures_bound(outs: Seq<DestOutcome>)
    ensures
        failures(outs) <= outs.len(),
        first_failure(outs, 0) == outs.len() ==> failures(outs) == 0,
    decreases outs.len(),
{
    lemma_first_failure(outs, 0);
    if outs.len() > 0 {
        let rest = outs.drop_last();
        lemma_failures_bound(rest);
        lemma_first_failure(rest, 0);
        if first_failure(outs, 0) == outs.len() {
            assert forall|k: int| 0 <= k < rest.len() implies rest[k].ok by {
                assert(rest[k] == outs[k]);
            }
            if first_failure(rest, 0) < rest.len() {
                assert(rest[first_failure(rest, 0)].ok);
            }
            assert(outs.last() == outs[outs.len() - 1]);
        }
    }
}

/// The status line for a finished backup run.
pub fn backup_summary(outs: &Vec<DestOutcome>) -> (r: String)
    ensures
        r@ == spec_backup_summary(outs@),
{
    let mut failed: u64 = 0;
    let mut first: usize = outs.len();
    let mut i: usize = 0;
    assert(outs@.take(0) =~= Seq::<DestOutcome>::empty());
    while i < outs.len()
        invariant
            i <= outs@.len(),
            failed as nat == failures(outs@.take(i as int)),
            failed <= i,
            first == outs@.len() ==> forall|k: int| 0 <= k < i ==> outs@[k].ok,
            first < outs@.len() ==> first < i && first == first_failure(outs@, 0),
            first <= outs@.len(),
        decreases outs@.len() - i,
    {
        assert(outs@.take(i + 1).drop_last() =~= outs@.take(i as int));
        if !outs[i].ok {
            failed += 1;
            if first == outs.len() {
                first = i;
                proof {
                    lemma_first_failure(outs@, 0);
                    if first_failure(outs@, 0) < i {
                        assert(outs@[first_failure(outs@, 0)].ok);
                    }
                    if first_failure(outs@, 0) > i {
                        assert(outs@[i as int].ok);
                    }
                }
            }
        }
        i += 1;
    }
    assert(outs@.take(i as int) =~= outs@);
    proof {
        lemma_first_failure(outs@, 0);
        lemma_failures_bound(outs@);
    }
    let mut n_digits: Vec<char> = Vec::new();
    push_decimal(&mut n_digits, outs.len() as u64);
    if failed == 0 {
        proof {
            if first < outs@.len() {
                assert(!outs@[first as int].ok);
                assert(failures(outs@) > 0) by {
                    lemma_failures_positive(outs@, first as int);
                }
            }
        }
        let a = concat_chars(&chars_of("Backed up to "), &n_digits);
        string_of(&concat_chars(&a, &chars_of(" destination(s) OK")))
    } else {
        proof {
            if first == outs@.len() {
                lemma_failures_none(outs@);
            }
        }
        let mut f_digits: Vec<char> = Vec::new();
        push_decimal(&mut f_digits, failed);
        let d = &outs[first];
        let a = concat_chars(&chars_of("Backup: "), &f_digits);
        let b = concat_chars(&concat_chars(&a, &chars_of("/")), &n_digits);
        let c = concat_chars(&concat_chars(&b, &chars_of(" failed — ")), &chars_of(d.dest.as_str()));
        let e = concat_chars(&concat_chars(&c, &chars_of(": ")), &chars_of(d.detail.as_str()));
        string_of(&e)
    }
}

proof fn lemma_failures_positive(outs: Seq<DestOutcome>, k: int)
    requires
        0 <= k < outs.len(),
        !outs[k].ok,
    ensures
        failures(outs) > 0,
    decreases outs.len(),
{
    if k < outs.len() - 1 {
        assert(outs.drop_last()[k] == outs[k]);
        lemma_failures_positive(outs.drop_last(), k);
    }
}

/// Whether a scheduled backup should start now: scheduling is on with an
/// interval, none is running, and the last attempt (if any) was at least the
/// interval ago.
pub fn backup_due(cfg: &BackupConfig, running: bool, since_last_secs: Option<u64>) -> (r: bool)
    ensures
        r == (cfg.enabled && cfg.interval_mins > 0 && !running && match since_last_secs {
            Some(s) => s >= cfg.interval_mins * 60,
            None => true,
        }),
{
    if !cfg.enabled || cfg.interval_mins == 0 || running {
        return false;
    }
    match since_last_secs {
        Some(s) => s / 60 >= cfg.interval_mins,
        None => true,
    }
}

/// The remote directory `scp` is handed: the trimmed target, which has to
/// look like `host:/dir`, with a trailing slash so the file lands inside it.
pub open spec fn spec_sftp_target(target: Seq<char>) -> Result<Seq<char>, Seq<char>> {
    let t = trim(target);
    if t.len() == 0 || !t.contains(':') {
        Err("SFTP target must look like host:/dir or user@host:/dir"@)
    } else if t.last() == '/' {
        Ok(t)
    } else {
        Ok(t.push('/'))
    }
}

/// scp needs a trailing slash on the remote dir so the file lands inside it.
pub fn sftp_target(target: &str) -> (r: Result<String, String>)
    ensures
        match r {
            Ok(s) => spec_sftp_target(target@) == Ok::<Seq<char>, Seq<char>>(s@),
            Err(e) => spec_sftp_target(target@) == Err::<Seq<char>, Seq<char>>(e@),
        },
{
    let mut t = trim_chars(&chars_of(target));
    let mut has_colon = false;
    let mut i: usize = 0;
    while i < t.len()
        invariant
            i <= t@.len(),
            has_colon <==> exists|k: int| 0 <= k < i && t@[k] == ':',
        decreases t@.len() - i,
    {
        if t[i] == ':' {
            has_colon = true;
        }
        i += 1;
    }
    if t.len() == 0 || !has_colon {
        proof {
            if t@.contains(':') {
                let k = choose|k: int| 0 <= k < t@.len() && t@[k] == ':';
                assert(has_colon);
            }
        }
        return Err("SFTP target must look like host:/dir or user@host:/dir".to_owned());
    }
    assert(t@.contains(':'));
    if t[t.len() - 1] != '/' {
        t.push('/');
    }
    Ok(string_of(&t))
}

/// Where a disk backup is written: the trimmed directory, which must be set.
pub open spec fn spec_disk_dir(dir: Seq<char>) -> Result<Seq<char>, Seq<char>> {
    if trim(dir).len() == 0 {
        Err("disk destination has no directory set"@)
    } else {
        Ok(trim(dir))
    }
}

/// The directory a disk destination writes to.
pub fn disk_dir(dir: &str) -> (r: Result<String, String>)
    ensures
        match r {
            Ok(s) => spec_disk_dir(dir@) == Ok::<Seq<char>, Seq<char>>(s@),
            Err(e) => spec_disk_dir(dir@) == Err::<Seq<char>, Seq<char>>(e@),
        },
{
    let t = trim_chars(&chars_of(dir));
    if t.len() == 0 {
        Err("disk destination has no directory set".to_owned())
    } else {
        Ok(string_of(&t))
    }
}

/// The file a backup run writes: `trellis-backup-<stamp>.ron.gz`, with `.gpg`
/// added when encrypted.
pub open spec fn spec_backup_filename(stamp: Seq<char>, encrypt: bool) -> Seq<char> {
    "trellis-backup-"@ + stamp + if encrypt {
        ".ron.gz.gpg"@
    } else {
        ".ron.gz"@
    }
}

/// The file name a backup run writes for `stamp`.
pub fn backup_filename(stamp: &str, encrypt: bool) -> (r: String)
    ensures
        r@ == spec_backup_filename(stamp@, encrypt),
{
    let ext = if encrypt {
        chars_of(".ron.gz.gpg")
    } else {
        chars_of(".ron.gz")
    };
    let out = concat_chars(&concat_chars(&chars_of("trellis-backup-"), &chars_of(stamp)), &ext);
    string_of(&out)
}

/// The `rclone copyto` destination: the remote path without trailing slashes,
/// a slash, and the file name.
pub open spec fn spec_rclone_dest(target: Seq<char>, filename: Seq<char>) -> Seq<char> {
    trim_end_char(target, '/') + "/"@ + filename
}

/// The `rclone copyto` destination for a file.
pub fn rclone_dest(target: &str, filename: &str) -> (r: String)
    ensures
        r@ == spec_rclone_dest(target@, filename@),
{
    let head = trim_end_char_exec(&chars_of(target), '/');
    let out = concat_chars(&concat_chars(&head, &chars_of("/")), &chars_of(filename));
    string_of(&out)
}

/// What a backup run does at one destination.
pub enum Delivery {
    /// Write into `dir`, then prune to `retention` (0 = keep all).
    Disk { dir: String, retention: usize },
    /// `scp` the staged copy to `target`, or report why the target is unusable.
    Scp { target: Result<String, String> },
    /// `rclone copyto` the staged copy to `dest`.
    Rclone { dest: String },
}

/// One destination of a planned run: its status-line label and its delivery.
pub struct Step {
    pub dest: String,
    pub delivery: Delivery,
}

/// A backup run, decided: whether to encrypt, the file name, whether a temp
/// copy must be staged for the command-based destinations, and one step per
/// enabled destination.
pub struct BackupPlan {
    pub encrypt: bool,
    pub filename: String,
    pub needs_staging: bool,
    pub steps: Vec<Step>,
}

/// Whether `step` is what a run does for destination `d`.
pub open spec fn step_for(step: Step, d: BackupDest, filename: Seq<char>, retention: usize) -> bool {
    &&& step.dest@ == spec_dest_display(d.name@, d.target@, d.kind)
    &&& match d.kind {
        DestKind::Disk => step.delivery matches Delivery::Disk { dir, retention: r } && dir@
            == d.target@ && r == retention,
        DestKind::Sftp => step.delivery matches Delivery::Scp { target } && match target {
            Ok(t) => spec_sftp_target(d.target@) == Ok::<Seq<char>, Seq<char>>(t@),
            Err(e) => spec_sftp_target(d.target@) == Err::<Seq<char>, Seq<char>>(e@),
        },
        DestKind::Rclone => step.delivery matches Delivery::Rclone { dest } && dest@
            == spec_rclone_dest(d.target@, filename),
    }
}

fn plan_step(d: &BackupDest, filename: &str, retention: usize) -> (r: Step)
    ensures
        step_for(r, *d, filename@, retention),
{
    let dest = d.display();
    let delivery = match d.kind {
        DestKind::Disk => Delivery::Disk { dir: d.target.clone(), retention },
        DestKind::Sftp => Delivery::Scp { target: sftp_target(d.target.as_str()) },
        DestKind::Rclone => Delivery::Rclone { dest: rclone_dest(d.target.as_str(), filename) },
    };
    Step { dest, delivery }
}

/// Decide a backup run for `stamp` under `cfg`.
///
/// With no enabled destination the run reports `(none)`; with encryption on
/// and no passphrase it reports the encryption error; otherwise it yields the
/// plan the caller carries out.
pub fn plan_backup(stamp: &str, cfg: &BackupConfig) -> (r: Result<BackupPlan, DestOutcome>)
    ensures
        match r {
            Err(o) => {
                ||| enabled_all(cfg).len() == 0 && o.dest@ == "(none)"@ && !o.ok && o.detail@
                    == "no enabled destinations configured"@
                ||| enabled_all(cfg).len() > 0 && cfg.encrypt && cfg.passphrase@.len() == 0
                    && o.dest@ == "encryption"@ && !o.ok && o.detail@
                    == "encryption is on but the passphrase is empty"@
            },
            Ok(p) => {
                &&& enabled_all(cfg).len() > 0
                &&& !(cfg.encrypt && cfg.passphrase@.len() == 0)
                &&& p.encrypt == cfg.encrypt
                &&& p.filename@ == spec_backup_filename(stamp@, cfg.encrypt)
                &&& p.needs_staging == any_remote(cfg)
                &&& p.steps@.len() == enabled_all(cfg).len()
                &&& forall|k: int|
                    0 <= k < p.steps@.len() ==> step_for(
                        #[trigger] p.steps@[k],
                        cfg.destinations@[enabled_all(cfg)[k]],
                        p.filename@,
                        cfg.retention,
                    )
            },
        },
{
    let en = cfg.enabled_dests();
    if en.len() == 0 {
        return Err(
            DestOutcome {
                dest: "(none)".to_owned(),
                ok: false,
                detail: "no enabled destinations configured".to_owned(),
            },
        );
    }
    if cfg.encrypt && cfg.passphrase.as_str().is_empty() {
        return Err(
            DestOutcome {
                dest: "encryption".to_owned(),
                ok: false,
                detail: "encryption is on but the passphrase is empty".to_owned(),
            },
        );
    }
    proof {
        lemma_enabled_positions(cfg.destinations@, cfg.destinations@.len() as int);
    }
    let filename = backup_filename(stamp, cfg.encrypt);
    let mut steps: Vec<Step> = Vec::new();
    let mut needs_staging = false;
    let mut k: usize = 0;
    while k < en.len()
        invariant
            k <= en@.len(),
            en@.len() == enabled_all(cfg).len(),
            forall|j: int| 0 <= j < en@.len() ==> en@[j] as int == #[trigger] enabled_all(cfg)[j],
            forall|j: int|
                0 <= j < en@.len() ==> 0 <= #[trigger] enabled_all(cfg)[j]
                    < cfg.destinations@.len(),
            steps@.len() == k,
            forall|j: int|
                0 <= j < k ==> step_for(
                    #[trigger] steps@[j],
                    cfg.destinations@[enabled_all(cfg)[j]],
                    filename@,
                    cfg.retention,
                ),
            needs_staging <==> exists|j: int|
                0 <= j < k && cfg.destinations@[#[trigger] enabled_all(cfg)[j]].kind
                    != DestKind::Disk,
        decreases en@.len() - k,
    {
        assert(en@[k as int] as int == enabled_all(cfg)[k as int]);
        let d = &cfg.destinations[en[k]];
        if d.kind != DestKind::Disk {
            needs_staging = true;
        }
        steps.push(plan_step(d, filename.as_str(), cfg.retention));
        k += 1;
    }
    Ok(BackupPlan { encrypt: cfg.encrypt, filename, needs_staging, steps })
}


/// The backup file-name timestamp `YYYYMMDD-HHMMSS` (UTC) of `secs` seconds
/// after the Unix epoch.
pub open spec fn spec_stamp(secs: nat) -> Seq<char> {
    let date = civil_from_days(secs / 86400);
    let rem = secs % 86400;
    zero_pad(decimal(date.0 as nat), 4) + zero_pad(decimal(date.1 as nat), 2) + zero_pad(
        decimal(date.2 as nat),
        2,
    ) + seq!['-'] + zero_pad(decimal(rem / 3600), 2) + zero_pad(decimal((rem % 3600) / 60), 2)
        + zero_pad(decimal(rem % 60), 2)
}

/// UTC timestamp `YYYYMMDD-HHMMSS` for `secs` seconds after the Unix epoch.
pub fn stamp_secs(secs: u64) -> (r: String)
    ensures
        r@ == spec_stamp(secs as nat),
{
    let days = secs / 86400;
    let rem = secs % 86400;
    assert(days < 0x1_0000_0000_0000) by (nonlinear_arith)
        requires
            days == secs / 86400,
    ;
    let (y, m, d) = civil_from_days_exec(days);
    let mut out: Vec<char> = Vec::new();
    push_padded(&mut out, y, 4);
    push_padded(&mut out, m, 2);
    push_padded(&mut out, d, 2);
    out.push('-');
    push_padded(&mut out, rem / 3600, 2);
    push_padded(&mut out, (rem % 3600) / 60, 2);
    push_padded(&mut out, rem % 60, 2);
    let ghost date = civil_from_days(days as nat);
    assert(days as nat == (secs as nat) / 86400);
    assert(rem as nat == (secs as nat) % 86400);
    assert(y as nat == date.0 as nat && m as nat == date.1 as nat && d as nat == date.2 as nat);
    assert(out@ =~= spec_stamp(secs as nat));
    string_of(&out)
}

#[verifier::external_type_specification]
#[verifier::external_body]
pub struct ExSystemTime(std::time::SystemTime);

/// What `SystemTime::duration_since(UNIX_EPOCH)` gives for `now`, in whole
/// seconds (`Duration::as_secs`): `None` for a time before the epoch.
pub uninterp spec fn spec_secs_since_epoch(now: std::time::SystemTime) -> Option<u64>;

/// Calls `SystemTime::duration_since(UNIX_EPOCH)` on `now` and takes whole
/// seconds with `Duration::as_secs`; `None` for a time before the epoch. The
/// result depends on `now` alone, and is named by `spec_secs_since_epoch`.
#[verifier::external_body]
fn secs_since_epoch(now: std::time::SystemTime) -> (r: Option<u64>)
    ensures
        r == spec_secs_since_epoch(now),
{
    match now.duration_since(std::time::UNIX_EPOCH) {
        Ok(d) => Some(d.as_secs()),
        Err(_) => None,
    }
}

/// The whole seconds from the epoch to `now`, 0 for a time before it.
pub open spec fn stamp_seconds(now: std::time::SystemTime) -> nat {
    match spec_secs_since_epoch(now) {
        Some(s) => s as nat,
        None => 0,
    }
}

/// UTC timestamp `YYYYMMDD-HHMMSS` from a `SystemTime`, for backup filenames:
/// the stamp of the whole seconds since the epoch; a time before the epoch
/// stamps as the epoch.
pub fn stamp(now: std::time::SystemTime) -> (r: String)
    ensures
        r@ == spec_stamp(stamp_seconds(now)),
{
    let secs = match secs_since_epoch(now) {
        Some(s) => s,
        None => 0,
    };
    stamp_secs(secs)
}


/// Whether a file name is one of this app's finished backups.
pub open spec fn is_backup_file(n: Seq<char>) -> bool {
    starts_with(n, "trellis-backup-"@) && !ends_with(n, ".part"@)
}

/// The backup files among `names`, in order.
pub open spec fn backup_files(names: Seq<Seq<char>>) -> Seq<Seq<char>>
    decreases names.len(),
{
    if names.len() == 0 {
        seq![]
    } else {
        let r = backup_files(names.drop_last());
        if is_backup_file(names.last()) {
            r.push(names.last())
        } else {
            r
        }
    }
}

/// The backups a retention limit of `keep` removes from a directory holding
/// `names`: all but the newest `keep`, oldest first; none when `keep` is 0.
/// Names embed a sortable timestamp, so name order is age order.
pub open spec fn spec_retention_victims(names: Seq<Seq<char>>, keep: nat) -> Seq<Seq<char>> {
    let c = backup_files(names);
    if keep == 0 || c.len() <= keep {
        seq![]
    } else {
        sorted_names(c).take(c.len() - keep)
    }
}

/// The backup files to delete from a disk destination holding `names` so
/// that only the newest `keep` remain (`keep == 0` keeps all).
pub fn retention_victims(names: &Vec<String>, keep: usize) -> (r: Vec<String>)
    ensures
        r.deep_view() == spec_retention_victims(names.deep_view(), keep as nat),
{
    let all = chars_of_all(names);
    let ghost src = all.deep_view();
    let prefix = chars_of("trellis-backup-");
    let part = chars_of(".part");
    let mut c: Vec<Vec<char>> = Vec::new();
    let mut i: usize = 0;
    assert(src.take(0) =~= Seq::<Seq<char>>::empty());
    while i < all.len()
        invariant
            i <= all@.len(),
            src == all.deep_view(),
            prefix@ == "trellis-backup-"@,
            part@ == ".part"@,
            c.deep_view() == backup_files(src.take(i as int)),
        decreases all@.len() - i,
    {
        assert(src[i as int] == all@[i as int]@);
        assert(src.take(i + 1).drop_last() =~= src.take(i as int));
        if starts_with_exec(&all[i], &prefix) && !ends_with_exec(&all[i], &part) {
            let x = sub_chars(&all[i], 0, all[i].len());
            assert(x@ =~= all@[i as int]@);
            let ghost before = c.deep_view();
            c.push(x);
            assert(x.deep_view() =~= x@);
            assert(c.deep_view() =~= before.push(x@));
        }
        i += 1;
    }
    assert(src.take(i as int) =~= src);
    if keep == 0 || c.len() <= keep {
        return Vec::new();
    }
    let sorted = sort_chars(&c);
    let mut out: Vec<Vec<char>> = Vec::new();
    let n = c.len() - keep;
    let ghost ss = sorted.deep_view();
    let mut k: usize = 0;
    proof {
        crate::order::lemma_lex_total_ordering();
        c.deep_view().lemma_sort_by_ensures(crate::order::lex_order());
        vstd::seq_lib::to_multiset_len(c.deep_view());
        vstd::seq_lib::to_multiset_len(ss);
    }
    assert(ss.len() == c@.len());
    while k < n
        invariant
            k <= n <= sorted@.len(),
            ss == sorted.deep_view(),
            out.deep_view() == ss.take(k as int),
        decreases n - k,
    {
        let x = sub_chars(&sorted[k], 0, sorted[k].len());
        assert(x@ =~= ss[k as int]);
        let ghost before = out.deep_view();
        out.push(x);
        assert(x.deep_view() =~= x@);
        assert(out.deep_view() =~= before.push(x@));
        assert(ss.take(k + 1) =~= ss.take(k as int).push(ss[k as int]));
        k += 1;
    }
    strings_of_all(&out)
}

} // verus!
