//! The activity classifier: maps a snapshot of the host's processes to the
//! operations (build, deploy, update) that those processes reveal, together
//! with a best-effort description extracted from their command lines.

use vstd::prelude::*;
use crate::text::{
    contains_seq, contains_sub, ends_with_char, is_suffix_of, str_eq, strip_suffix_str,
};

verus! {

/// The kinds of long-running operations the classifier recognizes.
#[derive(Debug, PartialEq, Eq, Structural, Clone, Copy)]
pub enum ActivityKind {
    Build,
    Deploy,
    UpdateToRevision,
    UpdateModuleManager,
}

impl ActivityKind {
    /// The fixed human-readable label of this kind.
    pub open spec fn spec_label(self) -> Seq<char> {
        match self {
            ActivityKind::Build => "Build"@,
            ActivityKind::Deploy => "Deploy"@,
            ActivityKind::UpdateToRevision => "Update to revisions"@,
            ActivityKind::UpdateModuleManager => "Update with module manager"@,
        }
    }

    /// The label as an owned string, for building notification texts.
    pub fn label(&self) -> (r: String)
        ensures
            r@ == self.spec_label(),
    {
        match self {
            ActivityKind::Build => String::from_str("Build"),
            ActivityKind::Deploy => String::from_str("Deploy"),
            ActivityKind::UpdateToRevision => String::from_str("Update to revisions"),
            ActivityKind::UpdateModuleManager => String::from_str("Update with module manager"),
        }
    }
}

/// One OS process as the snapshot provider reports it: executable name,
/// numeric process id, and command-line argument vector.
pub struct ProcessInfo {
    pub name: String,
    pub pid: u64,
    pub args: Vec<String>,
}

/// The mathematical contents of one snapshot entry.
pub struct ProcView {
    pub name: Seq<char>,
    pub pid: u64,
    pub args: Seq<Seq<char>>,
}

impl View for ProcessInfo {
    type V = ProcView;

    open spec fn view(&self) -> ProcView {
        ProcView { name: self.name@, pid: self.pid, args: self.args.deep_view() }
    }
}

impl DeepView for ProcessInfo {
    type V = ProcView;

    open spec fn deep_view(&self) -> ProcView {
        self.view()
    }
}

/// One activity instance currently visible on the host.
pub struct ObservedActivity {
    pub pid: u64,
    pub kind: ActivityKind,
    pub description: Option<String>,
}

/// The mathematical contents of one observed activity.
pub struct ActView {
    pub pid: u64,
    pub kind: ActivityKind,
    pub description: Option<Seq<char>>,
}

impl View for ObservedActivity {
    type V = ActView;

    open spec fn view(&self) -> ActView {
        ActView { pid: self.pid, kind: self.kind, description: self.description.deep_view() }
    }
}

impl DeepView for ObservedActivity {
    type V = ActView;

    open spec fn deep_view(&self) -> ActView {
        self.view()
    }
}

impl ObservedActivity {
    /// A copy with the same contents.
    pub fn duplicate(&self) -> (r: ObservedActivity)
        ensures
            r@ == self@,
    {
        ObservedActivity {
            pid: self.pid,
            kind: self.kind,
            description: match &self.description {
                Some(s) => Some(s.clone()),
                None => None,
            },
        }
    }
}

/// Position `i` holds the first argument equal to `flag`.
pub open spec fn is_first_eq(args: Seq<Seq<char>>, flag: Seq<char>, i: int) -> bool {
    &&& 0 <= i < args.len()
    &&& args[i] == flag
    &&& forall|j: int| 0 <= j < i ==> args[j] != flag
}

/// Position `i` holds the last argument equal to `flag`.
pub open spec fn is_last_eq(args: Seq<Seq<char>>, flag: Seq<char>, i: int) -> bool {
    &&& 0 <= i < args.len()
    &&& args[i] == flag
    &&& forall|j: int| i < j < args.len() ==> args[j] != flag
}

/// Some argument equals `flag`.
pub open spec fn has_arg_eq(args: Seq<Seq<char>>, flag: Seq<char>) -> bool {
    exists|i: int| 0 <= i < args.len() && args[i] == flag
}

/// The position of the first argument equal to `flag`.
pub open spec fn first_eq(args: Seq<Seq<char>>, flag: Seq<char>) -> int {
    choose|i: int| is_first_eq(args, flag, i)
}

/// The position of the last argument equal to `flag`.
pub open spec fn last_eq(args: Seq<Seq<char>>, flag: Seq<char>) -> int {
    choose|i: int| is_last_eq(args, flag, i)
}

/// Position `i` holds the first argument that contains `needle`.
pub open spec fn is_first_containing(args: Seq<Seq<char>>, needle: Seq<char>, i: int) -> bool {
    &&& 0 <= i < args.len()
    &&& contains_seq(args[i], needle)
    &&& forall|j: int| 0 <= j < i ==> !contains_seq(args[j], needle)
}

/// Some argument contains `needle`.
pub open spec fn has_arg_containing(args: Seq<Seq<char>>, needle: Seq<char>) -> bool {
    exists|i: int| 0 <= i < args.len() && contains_seq(args[i], needle)
}

/// The position of the first argument that contains `needle`.
pub open spec fn first_containing(args: Seq<Seq<char>>, needle: Seq<char>) -> int {
    choose|i: int| is_first_containing(args, needle, i)
}

proof fn lemma_first_eq_unique(args: Seq<Seq<char>>, flag: Seq<char>, i: int)
    requires
        is_first_eq(args, flag, i),
    ensures
        has_arg_eq(args, flag),
        first_eq(args, flag) == i,
{
    let k = first_eq(args, flag);
    assert(is_first_eq(args, flag, i));
    if !is_first_eq(args, flag, k) {
        assert(false);
    }
    if k < i {
        assert(args[k] == flag);
    } else if i < k {
        assert(args[i] == flag);
    }
}

proof fn lemma_last_eq_unique(args: Seq<Seq<char>>, flag: Seq<char>, i: int)
    requires
        is_last_eq(args, flag, i),
    ensures
        has_arg_eq(args, flag),
        last_eq(args, flag) == i,
{
    let k = last_eq(args, flag);
    if !is_last_eq(args, flag, k) {
        assert(false);
    }
    if k < i {
        assert(args[i] == flag);
    } else if i < k {
        assert(args[k] == flag);
    }
}

proof fn lemma_first_containing_unique(args: Seq<Seq<char>>, needle: Seq<char>, i: int)
    requires
        is_first_containing(args, needle, i),
    ensures
        has_arg_containing(args, needle),
        first_containing(args, needle) == i,
{
    let k = first_containing(args, needle);
    if !is_first_containing(args, needle, k) {
        assert(false);
    }
    if k < i {
        assert(contains_seq(args[k], needle));
    } else if i < k {
        assert(contains_seq(args[i], needle));
    }
}

/// The position of the first argument equal to `flag`, scanning forward.
fn find_first_eq(args: &Vec<String>, flag: &str) -> (r: Option<usize>)
    ensures
        match r {
            Some(i) => is_first_eq(args.deep_view(), flag@, i as int),
            None => !has_arg_eq(args.deep_view(), flag@),
        },
{
    let ghost va = args.deep_view();
    let mut i: usize = 0;
    while i < args.len()
        invariant
            va == args.deep_view(),
            va.len() == args.len(),
            i <= args.len(),
            forall|j: int| 0 <= j < i ==> va[j] != flag@,
        decreases args.len() - i,
    {
        assert(va[i as int] == args[i as int]@);
        if str_eq(args[i].as_str(), flag) {
            return Some(i);
        }
        i += 1;
    }
    None
}

/// The position of the last argument equal to `flag`, scanning forward and
/// keeping the latest hit.
fn find_last_eq(args: &Vec<String>, flag: &str) -> (r: Option<usize>)
    ensures
        match r {
            Some(i) => is_last_eq(args.deep_view(), flag@, i as int),
            None => !has_arg_eq(args.deep_view(), flag@),
        },
{
    let ghost va = args.deep_view();
    let mut best: Option<usize> = None;
    let mut i: usize = 0;
    while i < args.len()
        invariant
            va == args.deep_view(),
            va.len() == args.len(),
            i <= args.len(),
            match best {
                Some(b) => b < i && va[b as int] == flag@
                    && forall|j: int| b < j < i ==> va[j] != flag@,
                None => forall|j: int| 0 <= j < i ==> va[j] != flag@,
            },
        decreases args.len() - i,
    {
        assert(va[i as int] == args[i as int]@);
        if str_eq(args[i].as_str(), flag) {
            best = Some(i);
        }
        i += 1;
    }
    best
}

/// The position of the first argument that contains `needle`.
fn find_first_containing(args: &Vec<String>, needle: &str) -> (r: Option<usize>)
    ensures
        match r {
            Some(i) => is_first_containing(args.deep_view(), needle@, i as int),
            None => !has_arg_containing(args.deep_view(), needle@),
        },
{
    let ghost va = args.deep_view();
    let mut i: usize = 0;
    while i < args.len()
        invariant
            va == args.deep_view(),
            va.len() == args.len(),
            i <= args.len(),
            forall|j: int| 0 <= j < i ==> !contains_seq(va[j], needle@),
        decreases args.len() - i,
    {
        assert(va[i as int] == args[i as int]@);
        if contains_sub(args[i].as_str(), needle) {
            return Some(i);
        }
        i += 1;
    }
    None
}

/// The number of leading characters `a` and `b` agree on.
pub open spec fn lcp_len(a: Seq<char>, b: Seq<char>) -> nat
    decreases a.len(),
{
    if a.len() == 0 || b.len() == 0 || a[0] != b[0] {
        0
    } else {
        1 + lcp_len(a.drop_first(), b.drop_first())
    }
}

/// The longest common character-prefix of `a` and `b`.
pub open spec fn lcp_seq(a: Seq<char>, b: Seq<char>) -> Seq<char> {
    a.take(lcp_len(a, b) as int)
}

pub proof fn lemma_lcp_len_bounds(a: Seq<char>, b: Seq<char>)
    ensures
        lcp_len(a, b) <= a.len(),
        lcp_len(a, b) <= b.len(),
    decreases a.len(),
{
    if a.len() == 0 || b.len() == 0 || a[0] != b[0] {
    } else {
        lemma_lcp_len_bounds(a.drop_first(), b.drop_first());
    }
}

proof fn lemma_lcp_agree(a: Seq<char>, b: Seq<char>, j: int)
    requires
        0 <= j < lcp_len(a, b),
    ensures
        j < a.len(),
        j < b.len(),
        a[j] == b[j],
    decreases j,
{
    lemma_lcp_len_bounds(a, b);
    if j == 0 {
    } else {
        lemma_lcp_agree(a.drop_first(), b.drop_first(), j - 1);
    }
}

proof fn lemma_lcp_mismatch(a: Seq<char>, b: Seq<char>)
    requires
        lcp_len(a, b) < a.len(),
        lcp_len(a, b) < b.len(),
    ensures
        a[lcp_len(a, b) as int] != b[lcp_len(a, b) as int],
    decreases a.len(),
{
    if a.len() == 0 || b.len() == 0 || a[0] != b[0] {
    } else {
        lemma_lcp_mismatch(a.drop_first(), b.drop_first());
    }
}

/// `lcp_seq(a, b)` is a common prefix of `a` and `b`, and no common
/// prefix is longer.
pub proof fn lemma_lcp_is_longest_common_prefix(a: Seq<char>, b: Seq<char>)
    ensures
        crate::text::is_prefix_of(lcp_seq(a, b), a),
        crate::text::is_prefix_of(lcp_seq(a, b), b),
        forall|p: Seq<char>|
            crate::text::is_prefix_of(p, a) && crate::text::is_prefix_of(p, b) ==> p.len()
                <= lcp_seq(a, b).len(),
{
    let l = lcp_len(a, b) as int;
    lemma_lcp_len_bounds(a, b);
    assert forall|j: int| 0 <= j < l implies a[j] == b[j] by {
        lemma_lcp_agree(a, b, j);
    }
    assert(a.take(l) =~= b.take(l));
    assert forall|p: Seq<char>|
        crate::text::is_prefix_of(p, a) && crate::text::is_prefix_of(p, b) implies p.len()
        <= lcp_seq(a, b).len() by {
        if p.len() > l {
            lemma_lcp_mismatch(a, b);
            assert(p[l] == a.take(p.len() as int)[l]);
            assert(p[l] == b.take(p.len() as int)[l]);
            assert(false);
        }
    }
}

/// `lcp_len` is exactly the position of the first disagreement.
proof fn lemma_lcp_len_char(a: Seq<char>, b: Seq<char>, i: int)
    requires
        0 <= i <= a.len(),
        i <= b.len(),
        forall|j: int| 0 <= j < i ==> a[j] == b[j],
        i == a.len() || i == b.len() || a[i] != b[i],
    ensures
        lcp_len(a, b) == i,
    decreases i,
{
    if i == 0 {
    } else {
        assert(a[0] == b[0]);
        lemma_lcp_len_char(a.drop_first(), b.drop_first(), i - 1);
    }
}

/// The longest common prefix of two strings, compared character by
/// character.
pub fn lcp<'a>(a: &'a str, b: &'a str) -> (r: &'a str)
    ensures
        r@ == lcp_seq(a@, b@),
{
    let n = a.unicode_len();
    let m = b.unicode_len();
    let bound = if n < m { n } else { m };
    let mut i: usize = 0;
    while i < bound && a.get_char(i) == b.get_char(i)
        invariant
            n == a@.len(),
            m == b@.len(),
            bound == if n < m { n } else { m },
            i <= bound,
            forall|j: int| 0 <= j < i ==> a@[j] == b@[j],
        decreases bound - i,
    {
        i += 1;
    }
    proof {
        lemma_lcp_len_char(a@, b@, i as int);
    }
    a.substring_char(0, i)
}

/// The string with its last character removed; the empty string is left as
/// it is.
pub fn pop_char<'a>(a: &'a str) -> (r: &'a str)
    ensures
        a@.len() == 0 ==> r@ == a@,
        a@.len() > 0 ==> r@ == a@.drop_last(),
{
    let n = a.unicode_len();
    if n == 0 {
        a
    } else {
        let r = a.substring_char(0, n - 1);
        assert(a@.subrange(0, n - 1) =~= a@.drop_last());
        r
    }
}

/// The value that follows the last occurrence of `flag`, if there is one.
pub open spec fn spec_flag_value_last(args: Seq<Seq<char>>, flag: Seq<char>) -> Option<Seq<char>> {
    if has_arg_eq(args, flag) && last_eq(args, flag) + 1 < args.len() {
        Some(args[last_eq(args, flag) + 1])
    } else {
        None
    }
}

/// The deployment root inferred from a deployment utility's arguments.
///
/// There is no explicit path argument. When both the stand path and the
/// logs path are given, the root is their longest common prefix (both live
/// under the deployment root). When only one is given, a known fixed
/// suffix is stripped from it; when the suffix does not match, no root is
/// reported. A single trailing path separator is trimmed from the result.
pub open spec fn spec_deploy_path(args: Seq<Seq<char>>) -> Option<Seq<char>> {
    let ds = spec_flag_value_last(args, "--deploy_stand"@);
    let ld = spec_flag_value_last(args, "--logs_dir"@);
    let r = match (ds, ld) {
        (Some(d), Some(l)) => Some(lcp_seq(d, l)),
        (None, Some(l)) => if is_suffix_of("logs"@, l) {
            Some(l.take(l.len() - "logs"@.len()))
        } else {
            None
        },
        (Some(d), None) => if is_suffix_of("config\\test.s3deploy"@, d) {
            Some(d.take(d.len() - "config\\test.s3deploy"@.len()))
        } else if is_suffix_of("config/test.s3deploy"@, d) {
            Some(d.take(d.len() - "config/test.s3deploy"@.len()))
        } else {
            None
        },
        (None, None) => None,
    };
    match r {
        Some(x) => Some(
            if x.len() > 0 && (x.last() == '\\' || x.last() == '/') {
                x.drop_last()
            } else {
                x
            },
        ),
        None => None,
    }
}

/// The argument that follows the last occurrence of `flag`, cloned.
fn flag_value_last(args: &Vec<String>, flag: &str) -> (r: Option<String>)
    ensures
        r.deep_view() == spec_flag_value_last(args.deep_view(), flag@),
{
    let ghost va = args.deep_view();
    match find_last_eq(args, flag) {
        Some(i) => {
            proof {
                lemma_last_eq_unique(va, flag@, i as int);
                assert(va.len() == args@.len());
                assert(i < args.len());
            }
            if i + 1 < args.len() {
                assert(va[i + 1] == args[i + 1 as int]@);
                Some(args[i + 1].clone())
            } else {
                None
            }
        },
        None => None,
    }
}

/// The deployment root inferred from a deployment utility's arguments; see
/// `spec_deploy_path`.
pub fn get_deploy_path(cmd: &Vec<String>) -> (r: Option<String>)
    ensures
        r.deep_view() == spec_deploy_path(cmd.deep_view()),
{
    let deploy_stand_path = flag_value_last(cmd, "--deploy_stand");
    let logs_dir_path = flag_value_last(cmd, "--logs_dir");

    let res: Option<String> = match (&deploy_stand_path, &logs_dir_path) {
        (Some(d), Some(l)) => {
            proof {
                lemma_lcp_len_bounds(d@, l@);
            }
            Some(String::from_str(lcp(d.as_str(), l.as_str())))
        },
        (None, Some(l)) => match strip_suffix_str(l.as_str(), "logs") {
            Some(p) => Some(String::from_str(p)),
            None => None,
        },
        (Some(d), None) => match strip_suffix_str(d.as_str(), "config\\test.s3deploy") {
            Some(p) => Some(String::from_str(p)),
            None => match strip_suffix_str(d.as_str(), "config/test.s3deploy") {
                Some(p) => Some(String::from_str(p)),
                None => None,
            },
        },
        (None, None) => None,
    };

    match res {
        Some(x) => {
            if ends_with_char(x.as_str(), '\\') || ends_with_char(x.as_str(), '/') {
                Some(String::from_str(pop_char(x.as_str())))
            } else {
                Some(x)
            }
        },
        None => None,
    }
}

/// What one process reveals: an activity kind plus an optional description.
///
/// The recognizers are ordered and a process matches at most one of them:
/// - a build stub reports `Build` only when a `--build` flag has a value,
///   and that value is the description; a stub without such a value yields
///   nothing at all;
/// - a python interpreter running the update script reports
///   `UpdateToRevision`, described by the script path with its known tail
///   stripped, or undescribed when the tail does not match exactly;
/// - the deployment utility with a `--deploy_stand` flag reports `Deploy`,
///   described by the inferred deployment root (`spec_deploy_path`);
/// - the module manager always reports `UpdateModuleManager`, described by
///   the value of a `--store` flag when one is present.
pub open spec fn spec_recognize(p: ProcView) -> Option<(ActivityKind, Option<Seq<char>>)> {
    if contains_seq(p.name, "qtcreator_ctrlc_stub"@) {
        if has_arg_eq(p.args, "--build"@) && first_eq(p.args, "--build"@) + 1 < p.args.len() {
            Some((ActivityKind::Build, Some(p.args[first_eq(p.args, "--build"@) + 1])))
        } else {
            None
        }
    } else if contains_seq(p.name, "python"@) && has_arg_containing(
        p.args,
        "update_to_revisions.py"@,
    ) {
        let a = p.args[first_containing(p.args, "update_to_revisions.py"@)];
        let suffix = "online-inside\\update_to_revisions.py"@;
        Some(
            (
                ActivityKind::UpdateToRevision,
                if is_suffix_of(suffix, a) {
                    Some(a.take(a.len() - suffix.len()))
                } else {
                    None
                },
            ),
        )
    } else if contains_seq(p.name, "jinnee-utility"@) && has_arg_eq(p.args, "--deploy_stand"@) {
        Some((ActivityKind::Deploy, spec_deploy_path(p.args)))
    } else if contains_seq(p.name, "module-manager"@) {
        Some(
            (
                ActivityKind::UpdateModuleManager,
                if has_arg_eq(p.args, "--store"@) && first_eq(p.args, "--store"@) + 1
                    < p.args.len() {
                    Some(p.args[first_eq(p.args, "--store"@) + 1])
                } else {
                    None
                },
            ),
        )
    } else {
        None
    }
}

/// What one process reveals; see `spec_recognize`.
pub fn get_process_description(p: &ProcessInfo) -> (r: Option<(ActivityKind, Option<String>)>)
    ensures
        match r {
            Some(t) => spec_recognize(p@) matches Some(s) && t.0 == s.0 && t.1.deep_view() == s.1,
            None => spec_recognize(p@) is None,
        },
{
    let ghost va = p.args.deep_view();
    let name = p.name.as_str();
    if contains_sub(name, "qtcreator_ctrlc_stub") {
        match find_first_eq(&p.args, "--build") {
            Some(i) => {
                proof {
                    lemma_first_eq_unique(va, "--build"@, i as int);
                    assert(va.len() == p.args@.len());
                    assert(i < p.args.len());
                }
                if i + 1 < p.args.len() {
                    assert(va[i + 1] == p.args[i + 1 as int]@);
                    Some((ActivityKind::Build, Some(p.args[i + 1].clone())))
                } else {
                    None
                }
            },
            None => None,
        }
    } else if contains_sub(name, "python") && matches!(
        find_first_containing(&p.args, "update_to_revisions.py"), Some(_)
    ) {
        let i = match find_first_containing(&p.args, "update_to_revisions.py") {
            Some(i) => i,
            None => {
                assert(false);
                0
            },
        };
        proof {
            lemma_first_containing_unique(va, "update_to_revisions.py"@, i as int);
            assert(va[i as int] == p.args[i as int]@);
        }
        let d = match strip_suffix_str(
            p.args[i].as_str(),
            "online-inside\\update_to_revisions.py",
        ) {
            Some(s) => Some(String::from_str(s)),
            None => None,
        };
        Some((ActivityKind::UpdateToRevision, d))
    } else if contains_sub(name, "jinnee-utility") && matches!(
        find_first_eq(&p.args, "--deploy_stand"), Some(_)
    ) {
        Some((ActivityKind::Deploy, get_deploy_path(&p.args)))
    } else if contains_sub(name, "module-manager") {
        let d = match find_first_eq(&p.args, "--store") {
            Some(i) => {
                proof {
                    lemma_first_eq_unique(va, "--store"@, i as int);
                    assert(va.len() == p.args@.len());
                    assert(i < p.args.len());
                }
                if i + 1 < p.args.len() {
                    assert(va[i + 1] == p.args[i + 1 as int]@);
                    Some(p.args[i + 1].clone())
                } else {
                    None
                }
            },
            None => None,
        };
        Some((ActivityKind::UpdateModuleManager, d))
    } else {
        None
    }
}

/// The activities a whole snapshot reveals, one entry per recognized
/// process, in snapshot order.
pub open spec fn spec_classify(procs: Seq<ProcView>) -> Seq<ActView>
    decreases procs.len(),
{
    if procs.len() == 0 {
        Seq::empty()
    } else {
        spec_classify(procs.drop_last()) + match spec_recognize(procs.last()) {
            Some(t) => seq![
                ActView { pid: procs.last().pid, kind: t.0, description: t.1 },
            ],
            None => Seq::empty(),
        }
    }
}

/// Classification is a pure function of the snapshot's contents: any two
/// results for equal snapshots are equal.
pub proof fn lemma_classify_pure(procs: Seq<ProcView>, r1: Seq<ActView>, r2: Seq<ActView>)
    requires
        r1 == spec_classify(procs),
        r2 == spec_classify(procs),
    ensures
        r1 == r2,
{
}

/// Maps a snapshot to the activities it reveals. Pure: the result is
/// exactly `spec_classify` of the snapshot's contents, and each process
/// contributes at most one activity.
pub fn classify(procs: &Vec<ProcessInfo>) -> (r: Vec<ObservedActivity>)
    ensures
        r.deep_view() == spec_classify(procs.deep_view()),
{
    let ghost vp = procs.deep_view();
    let mut r: Vec<ObservedActivity> = Vec::new();
    let mut i: usize = 0;
    while i < procs.len()
        invariant
            vp == procs.deep_view(),
            vp.len() == procs.len(),
            i <= procs.len(),
            r.deep_view() == spec_classify(vp.take(i as int)),
        decreases procs.len() - i,
    {
        assert(vp[i as int] == procs[i as int]@);
        let ghost prefix = vp.take(i as int);
        let ghost prefix1 = vp.take(i + 1);
        proof {
            assert(prefix1.drop_last() =~= prefix);
            assert(prefix1.last() == vp[i as int]);
        }
        match get_process_description(&procs[i]) {
            Some((kind, description)) => {
                let act = ObservedActivity { pid: procs[i].pid, kind, description };
                let ghost old_r = r.deep_view();
                r.push(act);
                proof {
                    assert(r.deep_view() =~= old_r.push(act@));
                    assert(r.deep_view() =~= spec_classify(prefix1));
                }
            },
            None => {
                proof {
                    assert(r.deep_view() =~= spec_classify(prefix1));
                }
            },
        }
        i += 1;
    }
    proof {
        assert(vp.take(procs.len() as int) =~= vp);
    }
    r
}

/// Relies on sysinfo's `System`: a point-in-time snapshot of the host's
/// processes, each with its name, numeric id and command-line arguments.
/// The result depends on the machine's state at the time of the call, so
/// nothing is promised of it.
#[verifier::external_body]
fn current_processes() -> (r: Vec<ProcessInfo>) {
    let sys = sysinfo::System::new_with_specifics(
        sysinfo::RefreshKind::new().with_processes(
            sysinfo::ProcessRefreshKind::new().with_cmd(sysinfo::UpdateKind::OnlyIfNotSet),
        ),
    );
    sys.processes()
        .iter()
        .map(|(pid, p)| ProcessInfo {
            name: p.name().to_owned(),
            pid: pid.as_u32() as u64,
            args: p.cmd().to_vec(),
        })
        .collect()
}

/// The activities currently visible on this host: a fresh snapshot,
/// classified. Whatever the snapshot provider reports, the result is the
/// classification of some snapshot.
pub fn get_activity_list() -> (r: Vec<ObservedActivity>)
    ensures
        exists|procs: Seq<ProcView>| r.deep_view() == spec_classify(procs),
{
    let procs = current_processes();
    let r = classify(&procs);
    proof {
        assert(r.deep_view() == spec_classify(procs.deep_view()));
    }
    r
}

} // verus!
