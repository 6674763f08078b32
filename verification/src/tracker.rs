//! The subscription diff tracker: per-subscriber snapshots of observed
//! activities, completion detection by set difference on repeated polls,
//! the auto-notify path for the owner, and the notification texts the
//! tracker emits.

use vstd::prelude::*;
use crate::activity::{
    classify, spec_classify, ActView, ActivityKind, ObservedActivity, ProcessInfo,
};
use crate::process_messages::{command_is, get_string_help, spec_core_token, spec_help_text};

verus! {

/// One subscriber's stored snapshot: the activities observed when the
/// subscriber last subscribed, keyed by process id.
pub struct Subscriber {
    pub id: u64,
    pub actions: Vec<ObservedActivity>,
}

/// The mathematical contents of one subscriber entry.
pub struct SubView {
    pub id: u64,
    pub actions: Seq<ActView>,
}

impl View for Subscriber {
    type V = SubView;

    open spec fn view(&self) -> SubView {
        SubView { id: self.id, actions: self.actions.deep_view() }
    }
}

impl DeepView for Subscriber {
    type V = SubView;

    open spec fn deep_view(&self) -> SubView {
        self.view()
    }
}

/// Some stored activity carries the process id `pid`.
pub open spec fn has_pid(acts: Seq<ActView>, pid: u64) -> bool {
    exists|i: int| 0 <= i < acts.len() && acts[i].pid == pid
}

/// Position `i` holds the first activity with process id `pid`.
pub open spec fn is_first_pid(acts: Seq<ActView>, pid: u64, i: int) -> bool {
    &&& 0 <= i < acts.len()
    &&& acts[i].pid == pid
    &&& forall|j: int| 0 <= j < i ==> acts[j].pid != pid
}

/// The position of the first activity with process id `pid`.
pub open spec fn first_pid(acts: Seq<ActView>, pid: u64) -> int {
    choose|i: int| is_first_pid(acts, pid, i)
}

/// Process ids occur at most once.
pub open spec fn wf_actions(acts: Seq<ActView>) -> bool {
    forall|i: int, j: int| 0 <= i < j < acts.len() ==> acts[i].pid != acts[j].pid
}

/// A fresh observation folded into a snapshot: an already-present
/// process id keeps its position and takes the new observation; a new id
/// is appended.
pub open spec fn spec_upsert_act(acc: Seq<ActView>, a: ActView) -> Seq<ActView> {
    if has_pid(acc, a.pid) {
        acc.update(first_pid(acc, a.pid), a)
    } else {
        acc.push(a)
    }
}

/// The snapshot stored for a list of observed activities: one entry per
/// process id, a later observation of an id replacing an earlier one.
pub open spec fn spec_snapshot(acts: Seq<ActView>) -> Seq<ActView>
    decreases acts.len(),
{
    if acts.len() == 0 {
        Seq::empty()
    } else {
        spec_upsert_act(spec_snapshot(acts.drop_last()), acts.last())
    }
}

proof fn lemma_first_pid_exists(acts: Seq<ActView>, pid: u64)
    requires
        has_pid(acts, pid),
    ensures
        is_first_pid(acts, pid, first_pid(acts, pid)),
    decreases acts.len(),
{
    if acts.len() > 0 {
        if acts[0].pid == pid {
            assert(is_first_pid(acts, pid, 0));
        } else {
            let rest = acts.drop_first();
            assert(has_pid(rest, pid)) by {
                let w = choose|i: int| 0 <= i < acts.len() && acts[i].pid == pid;
                assert(rest[w - 1].pid == pid);
            }
            lemma_first_pid_exists(rest, pid);
            let f = first_pid(rest, pid);
            assert(is_first_pid(acts, pid, f + 1)) by {
                assert(acts[f + 1] == rest[f]);
                assert(forall|j: int| 0 < j < f + 1 ==> acts[j] == rest[j - 1]);
            }
        }
    }
}

proof fn lemma_first_pid_unique(acts: Seq<ActView>, pid: u64, i: int)
    requires
        is_first_pid(acts, pid, i),
    ensures
        has_pid(acts, pid),
        first_pid(acts, pid) == i,
{
    assert(has_pid(acts, pid));
    lemma_first_pid_exists(acts, pid);
    let k = first_pid(acts, pid);
    if k < i {
        assert(acts[k].pid == pid);
    } else if i < k {
        assert(acts[i].pid == pid);
    }
}

proof fn lemma_upsert_wf(acc: Seq<ActView>, a: ActView)
    requires
        wf_actions(acc),
    ensures
        wf_actions(spec_upsert_act(acc, a)),
        acc.len() <= spec_upsert_act(acc, a).len(),
{
    if has_pid(acc, a.pid) {
        lemma_first_pid_exists(acc, a.pid);
        let f = first_pid(acc, a.pid);
        let u = acc.update(f, a);
        assert forall|i: int, j: int| 0 <= i < j < u.len() implies u[i].pid != u[j].pid by {
            assert(acc[f].pid == a.pid);
            assert(u[i] == if i == f {
                a
            } else {
                acc[i]
            });
            assert(u[j] == if j == f {
                a
            } else {
                acc[j]
            });
        }
    }
}

/// The stored snapshot is uniquely keyed, and non-empty exactly when the
/// observation list is.
pub proof fn lemma_snapshot_wf(acts: Seq<ActView>)
    ensures
        wf_actions(spec_snapshot(acts)),
        acts.len() > 0 ==> spec_snapshot(acts).len() > 0,
    decreases acts.len(),
{
    if acts.len() > 0 {
        lemma_snapshot_wf(acts.drop_last());
        lemma_upsert_wf(spec_snapshot(acts.drop_last()), acts.last());
        if spec_snapshot(acts.drop_last()).len() == 0 {
            assert(spec_snapshot(acts).len() > 0);
        }
    }
}

/// The position of the first stored activity with process id `pid`.
fn find_first_pid(acts: &Vec<ObservedActivity>, pid: u64) -> (r: Option<usize>)
    ensures
        match r {
            Some(i) => is_first_pid(acts.deep_view(), pid, i as int),
            None => !has_pid(acts.deep_view(), pid),
        },
{
    let ghost va = acts.deep_view();
    let mut i: usize = 0;
    while i < acts.len()
        invariant
            va == acts.deep_view(),
            va.len() == acts.len(),
            i <= acts.len(),
            forall|j: int| 0 <= j < i ==> va[j].pid != pid,
        decreases acts.len() - i,
    {
        assert(va[i as int] == acts[i as int]@);
        if acts[i].pid == pid {
            return Some(i);
        }
        i += 1;
    }
    None
}

/// The snapshot stored for a list of observed activities; see
/// `spec_snapshot`.
fn snapshot_of(acts: &Vec<ObservedActivity>) -> (r: Vec<ObservedActivity>)
    ensures
        r.deep_view() == spec_snapshot(acts.deep_view()),
{
    let ghost va = acts.deep_view();
    let mut r: Vec<ObservedActivity> = Vec::new();
    let mut i: usize = 0;
    while i < acts.len()
        invariant
            va == acts.deep_view(),
            va.len() == acts.len(),
            i <= acts.len(),
            r.deep_view() == spec_snapshot(va.take(i as int)),
        decreases acts.len() - i,
    {
        let ghost prefix = va.take(i as int);
        let ghost prefix1 = va.take(i + 1);
        let ghost r0 = r.deep_view();
        proof {
            assert(prefix1.drop_last() =~= prefix);
            assert(prefix1.last() == va[i as int]);
            assert(va[i as int] == acts[i as int]@);
        }
        let a = acts[i].duplicate();
        match find_first_pid(&r, a.pid) {
            Some(j) => {
                proof {
                    lemma_first_pid_unique(r0, a.pid, j as int);
                }
                r[j] = a;
                proof {
                    assert(r.deep_view() =~= r0.update(j as int, va[i as int]));
                    assert(r.deep_view() =~= spec_snapshot(prefix1));
                }
            },
            None => {
                r.push(a);
                proof {
                    assert(r.deep_view() =~= r0.push(va[i as int]));
                    assert(r.deep_view() =~= spec_snapshot(prefix1));
                }
            },
        }
        i += 1;
    }
    proof {
        assert(va.take(acts.len() as int) =~= va);
    }
    r
}

/// The text that answers a subscription when at least one activity is
/// observed: the single activity is named, several are summarized.
pub open spec fn spec_subscribe_message(acts: Seq<ActView>) -> Seq<char> {
    (if acts.len() == 1 {
        "Current action: "@ + acts[0].kind.spec_label()
    } else {
        "There are several running actions"@
    }) + "\n"@ + "When action have been completed you will be notified"@
}

/// The text that answers a subscription; see `spec_subscribe_message`.
pub fn subscribe_message(acts: &Vec<ObservedActivity>) -> (r: String)
    requires
        acts@.len() > 0,
    ensures
        r@ == spec_subscribe_message(acts.deep_view()),
{
    let mut msg = if acts.len() == 1 {
        let mut m = String::from_str("Current action: ");
        assert(acts.deep_view()[0] == acts[0int]@);
        let lbl = acts[0].kind.label();
        m.append(lbl.as_str());
        m
    } else {
        String::from_str("There are several running actions")
    };
    msg.append("\n");
    msg.append("When action have been completed you will be notified");
    msg
}

/// Some subscriber entry carries the identity `id`.
pub open spec fn has_sub(subs: Seq<SubView>, id: u64) -> bool {
    exists|i: int| 0 <= i < subs.len() && subs[i].id == id
}

/// Position `i` holds the first subscriber entry with identity `id`.
pub open spec fn is_first_sub(subs: Seq<SubView>, id: u64, i: int) -> bool {
    &&& 0 <= i < subs.len()
    &&& subs[i].id == id
    &&& forall|j: int| 0 <= j < i ==> subs[j].id != id
}

/// The position of the first subscriber entry with identity `id`.
pub open spec fn first_sub(subs: Seq<SubView>, id: u64) -> int {
    choose|i: int| is_first_sub(subs, id, i)
}

/// Subscriber identities are unique; every stored snapshot is non-empty
/// and uniquely keyed by process id.
pub open spec fn wf_subs(subs: Seq<SubView>) -> bool {
    &&& forall|i: int, j: int| 0 <= i < j < subs.len() ==> subs[i].id != subs[j].id
    &&& forall|i: int|
        0 <= i < subs.len() ==> (#[trigger] subs[i].actions).len() > 0 && wf_actions(
            subs[i].actions,
        )
}

/// A subscription applied to the tracker's state: the subscriber's
/// snapshot is replaced (or first created) with the snapshot of the
/// freshly observed activities.
pub open spec fn spec_subscribe(subs: Seq<SubView>, id: u64, acts: Seq<ActView>) -> Seq<SubView> {
    let entry = SubView { id, actions: spec_snapshot(acts) };
    if has_sub(subs, id) {
        subs.update(first_sub(subs, id), entry)
    } else {
        subs.push(entry)
    }
}

proof fn lemma_first_sub_exists(subs: Seq<SubView>, id: u64)
    requires
        has_sub(subs, id),
    ensures
        is_first_sub(subs, id, first_sub(subs, id)),
    decreases subs.len(),
{
    if subs.len() > 0 {
        if subs[0].id == id {
            assert(is_first_sub(subs, id, 0));
        } else {
            let rest = subs.drop_first();
            assert(has_sub(rest, id)) by {
                let w = choose|i: int| 0 <= i < subs.len() && subs[i].id == id;
                assert(rest[w - 1].id == id);
            }
            lemma_first_sub_exists(rest, id);
            let f = first_sub(rest, id);
            assert(is_first_sub(subs, id, f + 1)) by {
                assert(subs[f + 1] == rest[f]);
                assert(forall|j: int| 0 < j < f + 1 ==> subs[j] == rest[j - 1]);
            }
        }
    }
}

proof fn lemma_first_sub_unique(subs: Seq<SubView>, id: u64, i: int)
    requires
        is_first_sub(subs, id, i),
    ensures
        has_sub(subs, id),
        first_sub(subs, id) == i,
{
    assert(has_sub(subs, id));
    lemma_first_sub_exists(subs, id);
    let k = first_sub(subs, id);
    if k < i {
        assert(subs[k].id == id);
    } else if i < k {
        assert(subs[i].id == id);
    }
}

/// Subscribing keeps the tracker's invariant, provided the observation
/// list is non-empty.
pub proof fn lemma_subscribe_wf(subs: Seq<SubView>, id: u64, acts: Seq<ActView>)
    requires
        wf_subs(subs),
        acts.len() > 0,
    ensures
        wf_subs(spec_subscribe(subs, id, acts)),
{
    lemma_snapshot_wf(acts);
    let entry = SubView { id, actions: spec_snapshot(acts) };
    if has_sub(subs, id) {
        lemma_first_sub_exists(subs, id);
        let f = first_sub(subs, id);
        let u = subs.update(f, entry);
        assert forall|i: int, j: int| 0 <= i < j < u.len() implies u[i].id != u[j].id by {
            assert(subs[f].id == id);
            assert(u[i] == if i == f {
                entry
            } else {
                subs[i]
            });
            assert(u[j] == if j == f {
                entry
            } else {
                subs[j]
            });
        }
        assert forall|i: int| 0 <= i < u.len() implies (#[trigger] u[i].actions).len() > 0
            && wf_actions(u[i].actions) by {
            if i != f {
                assert(u[i] == subs[i]);
            }
        }
    }
}

/// The subscription diff tracker's whole state: one entry per live
/// subscriber.
pub struct ActivityTracker {
    subs: Vec<Subscriber>,
}

impl View for ActivityTracker {
    type V = Seq<SubView>;

    closed spec fn view(&self) -> Seq<SubView> {
        self.subs.deep_view()
    }
}

impl ActivityTracker {
    /// The tracker's invariant; see `wf_subs`.
    pub open spec fn wf(&self) -> bool {
        wf_subs(self@)
    }

    /// A tracker with no subscribers.
    pub fn new() -> (r: ActivityTracker)
        ensures
            r@ == Seq::<SubView>::empty(),
            r.wf(),
    {
        let r = ActivityTracker { subs: Vec::new() };
        proof {
            assert(r@ =~= Seq::<SubView>::empty());
        }
        r
    }

    /// The position of the subscriber entry with identity `id`.
    fn find_sub(&self, id: u64) -> (r: Option<usize>)
        ensures
            match r {
                Some(i) => is_first_sub(self@, id, i as int),
                None => !has_sub(self@, id),
            },
    {
        let ghost vs = self@;
        let mut i: usize = 0;
        while i < self.subs.len()
            invariant
                vs == self.subs.deep_view(),
                vs.len() == self.subs.len(),
                i <= self.subs.len(),
                forall|j: int| 0 <= j < i ==> vs[j].id != id,
            decreases self.subs.len() - i,
        {
            assert(vs[i as int] == self.subs[i as int]@);
            if self.subs[i].id == id {
                return Some(i);
            }
            i += 1;
        }
        None
    }

    /// Runs the classifier over the snapshot and, when it observes
    /// anything, replaces this subscriber's stored snapshot with the
    /// fresh observation and answers with a summary; when it observes
    /// nothing, leaves the tracker as it is and answers nothing.
    pub fn subscribe(&mut self, id: u64, procs: &Vec<ProcessInfo>) -> (r: Option<String>)
        requires
            old(self).wf(),
        ensures
            final(self).wf(),
            ({
                let acts = spec_classify(procs.deep_view());
                &&& acts.len() == 0 ==> final(self)@ == old(self)@ && r is None
                &&& acts.len() > 0 ==> final(self)@ == spec_subscribe(old(self)@, id, acts) && (
                r matches Some(m) && m@ == spec_subscribe_message(acts))
            }),
    {
        let ghost subs0 = self@;
        let ghost acts_spec = spec_classify(procs.deep_view());
        let acts = classify(procs);
        proof {
            assert(acts.deep_view() == acts_spec);
            assert(acts@.len() == acts.deep_view().len());
        }
        if acts.len() == 0 {
            return None;
        }
        let msg = subscribe_message(&acts);
        let snap = snapshot_of(&acts);
        let entry = Subscriber { id, actions: snap };
        proof {
            assert(entry@ == SubView { id, actions: spec_snapshot(acts_spec) });
            lemma_subscribe_wf(subs0, id, acts_spec);
        }
        match self.find_sub(id) {
            Some(i) => {
                proof {
                    lemma_first_sub_unique(subs0, id, i as int);
                    assert(subs0.len() == self.subs@.len());
                }
                self.subs[i] = entry;
                proof {
                    assert(self@ =~= subs0.update(i as int, entry@));
                    assert(self@ == spec_subscribe(subs0, id, acts_spec));
                }
            },
            None => {
                self.subs.push(entry);
                proof {
                    assert(self@ =~= subs0.push(entry@));
                    assert(self@ == spec_subscribe(subs0, id, acts_spec));
                }
            },
        }
        Some(msg)
    }
}

/// One "activity completed" notice: who to tell, which process finished,
/// and what was stored about it.
pub struct CompletionNotice {
    pub chat: u64,
    pub pid: u64,
    pub kind: ActivityKind,
    pub description: Option<String>,
}

/// The mathematical contents of one completion notice.
pub struct NoticeView {
    pub chat: u64,
    pub pid: u64,
    pub kind: ActivityKind,
    pub description: Option<Seq<char>>,
}

impl View for CompletionNotice {
    type V = NoticeView;

    open spec fn view(&self) -> NoticeView {
        NoticeView {
            chat: self.chat,
            pid: self.pid,
            kind: self.kind,
            description: self.description.deep_view(),
        }
    }
}

impl DeepView for CompletionNotice {
    type V = NoticeView;

    open spec fn deep_view(&self) -> NoticeView {
        self.view()
    }
}

/// The text of one completion notice.
pub open spec fn spec_completion_message(k: ActivityKind, d: Option<Seq<char>>) -> Seq<char> {
    k.spec_label() + " completed"@ + match d {
        Some(s) => ", path = `\""@ + s + "\"`"@,
        None => Seq::<char>::empty(),
    }
}

impl CompletionNotice {
    /// The text of this notice; see `spec_completion_message`.
    pub fn message(&self) -> (r: String)
        ensures
            r@ == spec_completion_message(self.kind, self.description.deep_view()),
    {
        let mut m = self.kind.label();
        m.append(" completed");
        match &self.description {
            Some(s) => {
                m.append(", path = `\"");
                m.append(s.as_str());
                m.append("\"`");
            },
            None => {},
        }
        m
    }
}

/// The stored activities still visible in the current observation.
pub open spec fn spec_kept_actions(actions: Seq<ActView>, cur: Seq<ActView>) -> Seq<ActView> {
    actions.filter(|a: ActView| has_pid(cur, a.pid))
}

/// The stored activities whose process ids have disappeared: the
/// completed ones.
pub open spec fn spec_completed_actions(actions: Seq<ActView>, cur: Seq<ActView>) -> Seq<
    ActView,
> {
    actions.filter(|a: ActView| !has_pid(cur, a.pid))
}

/// The completion notices one subscriber receives.
pub open spec fn spec_notices_of(id: u64, actions: Seq<ActView>, cur: Seq<ActView>) -> Seq<
    NoticeView,
> {
    spec_completed_actions(actions, cur).map_values(
        |a: ActView| NoticeView { chat: id, pid: a.pid, kind: a.kind, description: a.description },
    )
}

/// The tracker's state after one poll against the current observation:
/// every subscriber keeps only the still-visible activities, and a
/// subscriber whose snapshot thereby empties is dropped entirely.
pub open spec fn spec_poll_subs(subs: Seq<SubView>, cur: Seq<ActView>) -> Seq<SubView>
    decreases subs.len(),
{
    if subs.len() == 0 {
        Seq::empty()
    } else {
        spec_poll_subs(subs.drop_last(), cur) + {
            let kept = spec_kept_actions(subs.last().actions, cur);
            if kept.len() == 0 {
                Seq::empty()
            } else {
                seq![SubView { id: subs.last().id, actions: kept }]
            }
        }
    }
}

/// The completion notices one poll emits, subscriber by subscriber in
/// stored order.
pub open spec fn spec_poll_notices(subs: Seq<SubView>, cur: Seq<ActView>) -> Seq<NoticeView>
    decreases subs.len(),
{
    if subs.len() == 0 {
        Seq::empty()
    } else {
        spec_poll_notices(subs.drop_last(), cur) + spec_notices_of(
            subs.last().id,
            subs.last().actions,
            cur,
        )
    }
}

/// Filtering a snapshot keeps it uniquely keyed.
proof fn lemma_kept_actions_wf(actions: Seq<ActView>, cur: Seq<ActView>)
    requires
        wf_actions(actions),
    ensures
        wf_actions(spec_kept_actions(actions, cur)),
        forall|e: ActView| #[trigger]
            spec_kept_actions(actions, cur).contains(e) ==> actions.contains(e),
    decreases actions.len(),
{
    reveal(Seq::filter);
    if actions.len() == 0 {
    } else {
        let rest = actions.drop_last();
        assert(wf_actions(rest)) by {
            assert(forall|i: int| 0 <= i < rest.len() ==> rest[i] == actions[i]);
        }
        lemma_kept_actions_wf(rest, cur);
        let fr = spec_kept_actions(rest, cur);
        let f = spec_kept_actions(actions, cur);
        assert forall|e: ActView| #[trigger] rest.contains(e) implies actions.contains(e) by {
            let j = choose|j: int| 0 <= j < rest.len() && rest[j] == e;
            assert(actions[j] == e);
        }
        if has_pid(cur, actions.last().pid) {
            assert(f == fr.push(actions.last()));
            assert forall|i1: int| 0 <= i1 < fr.len() implies #[trigger] fr[i1].pid
                != actions.last().pid by {
                assert(fr.contains(fr[i1]));
                let j = choose|j: int| 0 <= j < rest.len() && rest[j] == fr[i1];
                assert(actions[j] == fr[i1]);
                assert(actions[j].pid != actions[actions.len() - 1].pid);
            }
            assert forall|e: ActView| #[trigger] f.contains(e) implies actions.contains(e) by {
                let j = choose|j: int| 0 <= j < f.len() && f[j] == e;
                if j < f.len() - 1 {
                    assert(fr[j] == e);
                    assert(fr.contains(e));
                } else {
                    assert(actions[actions.len() - 1] == e);
                }
            }
        } else {
            assert(f == fr);
        }
    }
}

/// One poll keeps the tracker's invariant, and every surviving entry
/// belongs to a subscriber that was already present.
pub proof fn lemma_poll_subs_wf(subs: Seq<SubView>, cur: Seq<ActView>)
    requires
        wf_subs(subs),
    ensures
        wf_subs(spec_poll_subs(subs, cur)),
        forall|k: int|
            0 <= k < spec_poll_subs(subs, cur).len() ==> has_sub(
                subs,
                #[trigger] spec_poll_subs(subs, cur)[k].id,
            ),
    decreases subs.len(),
{
    if subs.len() == 0 {
    } else {
        let rest = subs.drop_last();
        assert(wf_subs(rest)) by {
            assert(forall|i: int| 0 <= i < rest.len() ==> rest[i] == subs[i]);
        }
        lemma_poll_subs_wf(rest, cur);
        let pr = spec_poll_subs(rest, cur);
        let p = spec_poll_subs(subs, cur);
        assert(wf_actions(subs.last().actions));
        lemma_kept_actions_wf(subs.last().actions, cur);
        let kept = spec_kept_actions(subs.last().actions, cur);
        assert forall|k: int| 0 <= k < pr.len() implies has_sub(subs, #[trigger] pr[k].id) by {
            assert(has_sub(rest, pr[k].id));
            let w = choose|i: int| 0 <= i < rest.len() && rest[i].id == pr[k].id;
            assert(subs[w].id == pr[k].id);
        }
        if kept.len() == 0 {
            assert(p =~= pr);
        } else {
            let entry = SubView { id: subs.last().id, actions: kept };
            assert(p =~= pr.push(entry));
            assert forall|i1: int, j1: int| 0 <= i1 < j1 < p.len() implies p[i1].id
                != p[j1].id by {
                if j1 == p.len() - 1 {
                    assert(p[i1] == pr[i1]);
                    assert(has_sub(rest, pr[i1].id));
                    let w = choose|i: int| 0 <= i < rest.len() && rest[i].id == pr[i1].id;
                    assert(subs[w].id != subs[subs.len() - 1].id);
                } else {
                    assert(p[i1] == pr[i1]);
                    assert(p[j1] == pr[j1]);
                }
            }
            assert forall|i1: int| 0 <= i1 < p.len() implies (#[trigger] p[i1].actions).len() > 0
                && wf_actions(p[i1].actions) by {
                if i1 < p.len() - 1 {
                    assert(p[i1] == pr[i1]);
                }
            }
        }
    }
}

/// A completion notice never names a process id that is present in the
/// current observation: an activity that has just started is never
/// reported completed by the same poll.
pub proof fn lemma_no_same_tick_completion(subs: Seq<SubView>, cur: Seq<ActView>, k: int)
    requires
        0 <= k < spec_poll_notices(subs, cur).len(),
    ensures
        !has_pid(cur, spec_poll_notices(subs, cur)[k].pid),
    decreases subs.len(),
{
    if subs.len() == 0 {
    } else {
        let rest = subs.drop_last();
        let pr = spec_poll_notices(rest, cur);
        let own = spec_notices_of(subs.last().id, subs.last().actions, cur);
        if k < pr.len() {
            lemma_no_same_tick_completion(rest, cur, k);
        } else {
            let comp = spec_completed_actions(subs.last().actions, cur);
            let j = k - pr.len();
            assert(own[j] == NoticeView {
                chat: subs.last().id,
                pid: comp[j].pid,
                kind: comp[j].kind,
                description: comp[j].description,
            });
            subs.last().actions.lemma_filter_pred(
                |a: ActView| !has_pid(cur, a.pid),
                j,
            );
        }
    }
}

/// No completion goes unannounced: every stored activity whose process
/// id is absent from the current observation appears among the poll's
/// notices, addressed to its subscriber.
pub proof fn lemma_poll_notices_complete(subs: Seq<SubView>, cur: Seq<ActView>, i: int, j: int)
    requires
        0 <= i < subs.len(),
        0 <= j < subs[i].actions.len(),
        !has_pid(cur, subs[i].actions[j].pid),
    ensures
        spec_poll_notices(subs, cur).contains(
            NoticeView {
                chat: subs[i].id,
                pid: subs[i].actions[j].pid,
                kind: subs[i].actions[j].kind,
                description: subs[i].actions[j].description,
            },
        ),
    decreases subs.len(),
{
    let a = subs[i].actions[j];
    let n = NoticeView { chat: subs[i].id, pid: a.pid, kind: a.kind, description: a.description };
    let rest = subs.drop_last();
    let pr = spec_poll_notices(rest, cur);
    let own = spec_notices_of(subs.last().id, subs.last().actions, cur);
    if i < subs.len() - 1 {
        lemma_poll_notices_complete(rest, cur, i, j);
        let k = choose|k: int| 0 <= k < pr.len() && pr[k] == n;
        assert(spec_poll_notices(subs, cur)[k] == n);
    } else {
        subs.last().actions.lemma_filter_contains(|x: ActView| !has_pid(cur, x.pid), j);
        let comp = spec_completed_actions(subs.last().actions, cur);
        let k = choose|k: int| 0 <= k < comp.len() && comp[k] == a;
        assert(own[k] == n);
        assert(spec_poll_notices(subs, cur)[pr.len() + k] == n);
    }
}

/// Whether some observed activity carries the process id `pid`.
fn has_pid_exec(acts: &Vec<ObservedActivity>, pid: u64) -> (r: bool)
    ensures
        r == has_pid(acts.deep_view(), pid),
{
    match find_first_pid(acts, pid) {
        Some(_) => true,
        None => false,
    }
}

impl ActivityTracker {
    /// One monitoring tick's completion diff: for every subscriber,
    /// each stored activity whose process id is absent from the fresh
    /// observation is reported completed and removed; a subscriber whose
    /// snapshot empties is dropped.
    pub fn poll(&mut self, procs: &Vec<ProcessInfo>) -> (r: Vec<CompletionNotice>)
        requires
            old(self).wf(),
        ensures
            final(self).wf(),
            final(self)@ == spec_poll_subs(old(self)@, spec_classify(procs.deep_view())),
            r.deep_view() == spec_poll_notices(old(self)@, spec_classify(procs.deep_view())),
    {
        let ghost subs0 = self@;
        let ghost cur = spec_classify(procs.deep_view());
        let acts = classify(procs);
        let mut notices: Vec<CompletionNotice> = Vec::new();
        let mut kept_subs: Vec<Subscriber> = Vec::new();
        let mut i: usize = 0;
        while i < self.subs.len()
            invariant
                old(self).wf(),
                subs0 == self.subs.deep_view(),
                subs0 == old(self)@,
                cur == acts.deep_view(),
                subs0.len() == self.subs.len(),
                i <= self.subs.len(),
                kept_subs.deep_view() == spec_poll_subs(subs0.take(i as int), cur),
                notices.deep_view() == spec_poll_notices(subs0.take(i as int), cur),
            decreases self.subs.len() - i,
        {
            let ghost spre = subs0.take(i as int);
            let ghost spre1 = subs0.take(i + 1);
            proof {
                assert(spre1.drop_last() =~= spre);
                assert(spre1.last() == subs0[i as int]);
                assert(subs0[i as int] == self.subs[i as int]@);
            }
            let sub_id = self.subs[i].id;
            let ghost actions = subs0[i as int].actions;
            let mut kept: Vec<ObservedActivity> = Vec::new();
            let ghost notices_before = notices.deep_view();
            let mut j: usize = 0;
            while j < self.subs[i].actions.len()
                invariant
                    i < self.subs.len(),
                    subs0 == self.subs.deep_view(),
                    subs0.len() == self.subs.len(),
                    cur == acts.deep_view(),
                    actions == subs0[i as int].actions,
                    actions == self.subs[i as int]@.actions,
                    sub_id == subs0[i as int].id,
                    actions.len() == self.subs[i as int].actions.len(),
                    j <= actions.len(),
                    kept.deep_view() == spec_kept_actions(actions.take(j as int), cur),
                    notices.deep_view() == notices_before + spec_notices_of(
                        sub_id,
                        actions.take(j as int),
                        cur,
                    ),
                decreases actions.len() - j,
            {
                let ghost apre = actions.take(j as int);
                let ghost apre1 = actions.take(j + 1);
                proof {
                    reveal(Seq::filter);
                    assert(apre1.drop_last() =~= apre);
                    assert(apre1.last() == actions[j as int]);
                    assert(actions[j as int] == self.subs[i as int].actions[j as int]@);
                }
                let a = self.subs[i].actions[j].duplicate();
                if has_pid_exec(&acts, a.pid) {
                    kept.push(a);
                    proof {
                        reveal(Seq::filter);
                        assert(kept.deep_view() =~= spec_kept_actions(apre1, cur));
                        assert(spec_notices_of(sub_id, apre1, cur) =~= spec_notices_of(
                            sub_id,
                            apre,
                            cur,
                        ));
                    }
                } else {
                    let n = CompletionNotice {
                        chat: sub_id,
                        pid: a.pid,
                        kind: a.kind,
                        description: a.description,
                    };
                    let ghost nv = NoticeView {
                        chat: sub_id,
                        pid: actions[j as int].pid,
                        kind: actions[j as int].kind,
                        description: actions[j as int].description,
                    };
                    notices.push(n);
                    proof {
                        reveal(Seq::filter);
                        assert(spec_kept_actions(apre1, cur) =~= spec_kept_actions(apre, cur));
                        assert(n@ == nv);
                        assert(spec_completed_actions(apre1, cur) =~= spec_completed_actions(
                            apre,
                            cur,
                        ).push(actions[j as int]));
                        assert(spec_notices_of(sub_id, apre1, cur) =~= spec_notices_of(
                            sub_id,
                            apre,
                            cur,
                        ).push(nv));
                        assert(notices.deep_view() =~= (notices_before + spec_notices_of(
                            sub_id,
                            apre,
                            cur,
                        )).push(nv));
                        assert(notices.deep_view() =~= notices_before + spec_notices_of(
                            sub_id,
                            apre1,
                            cur,
                        ));
                    }
                }
                j += 1;
            }
            proof {
                assert(actions.take(actions.len() as int) =~= actions);
            }
            if kept.len() > 0 {
                kept_subs.push(Subscriber { id: sub_id, actions: kept });
                proof {
                    assert(spec_kept_actions(actions, cur).len() > 0);
                    assert(kept_subs.deep_view() =~= spec_poll_subs(spre1, cur));
                    assert(notices.deep_view() =~= spec_poll_notices(spre1, cur));
                }
            } else {
                proof {
                    assert(spec_kept_actions(actions, cur).len() == 0);
                    assert(kept_subs.deep_view() =~= spec_poll_subs(spre1, cur));
                    assert(notices.deep_view() =~= spec_poll_notices(spre1, cur));
                }
            }
            i += 1;
        }
        proof {
            assert(subs0.take(subs0.len() as int) =~= subs0);
        }
        self.subs = kept_subs;
        proof {
            lemma_poll_subs_wf(subs0, cur);
        }
        notices
    }
}

/// The text of one "new activity started" notice, sent to the owner.
pub open spec fn spec_new_action_message(k: ActivityKind, d: Option<Seq<char>>) -> Seq<char> {
    "New action: "@ + k.spec_label() + "\n"@ + "Path: "@ + match d {
        Some(s) => s,
        None => Seq::<char>::empty(),
    }
}

/// The owner's stored snapshot, or nothing when the owner is not
/// subscribed.
pub open spec fn spec_owner_actions(subs: Seq<SubView>, owner: u64) -> Seq<ActView> {
    if has_sub(subs, owner) {
        subs[first_sub(subs, owner)].actions
    } else {
        Seq::<ActView>::empty()
    }
}

/// The "new activity started" texts for one observation: one for each
/// observed activity whose process id the owner's snapshot does not hold
/// yet, in observation order.
pub open spec fn spec_new_action_messages(
    subs: Seq<SubView>,
    owner: u64,
    acts: Seq<ActView>,
) -> Seq<Seq<char>> {
    acts.filter(|a: ActView| !has_pid(spec_owner_actions(subs, owner), a.pid)).map_values(
        |a: ActView| spec_new_action_message(a.kind, a.description),
    )
}

/// The text of one "new activity started" notice; see
/// `spec_new_action_message`.
pub fn new_action_message(a: &ObservedActivity) -> (r: String)
    ensures
        r@ == spec_new_action_message(a@.kind, a@.description),
{
    let mut m = String::from_str("New action: ");
    let lbl = a.kind.label();
    m.append(lbl.as_str());
    m.append("\n");
    m.append("Path: ");
    match &a.description {
        Some(s) => {
            m.append(s.as_str());
        },
        None => {},
    }
    m
}

impl ActivityTracker {
    /// The auto-notify path, run before the completion diff of the same
    /// tick: every observed activity the owner's snapshot does not hold
    /// yet is announced as newly started, and then the owner's snapshot
    /// is refreshed exactly as a fresh subscription would refresh it.
    pub fn auto_notify(&mut self, owner: u64, procs: &Vec<ProcessInfo>) -> (r: Vec<String>)
        requires
            old(self).wf(),
        ensures
            final(self).wf(),
            r.deep_view() == spec_new_action_messages(
                old(self)@,
                owner,
                spec_classify(procs.deep_view()),
            ),
            ({
                let acts = spec_classify(procs.deep_view());
                &&& acts.len() == 0 ==> final(self)@ == old(self)@
                &&& acts.len() > 0 ==> final(self)@ == spec_subscribe(old(self)@, owner, acts)
            }),
    {
        let ghost subs0 = self@;
        let ghost cur = spec_classify(procs.deep_view());
        let acts = classify(procs);
        let ghost owned = spec_owner_actions(subs0, owner);
        let mut msgs: Vec<String> = Vec::new();
        let owner_idx = self.find_sub(owner);
        proof {
            match owner_idx {
                Some(i) => {
                    lemma_first_sub_unique(subs0, owner, i as int);
                    assert(owned == subs0[i as int].actions);
                },
                None => {
                    assert(owned =~= Seq::<ActView>::empty());
                },
            }
        }
        let mut i: usize = 0;
        while i < acts.len()
            invariant
                subs0 == self@,
                subs0 == self.subs.deep_view(),
                subs0.len() == self.subs.len(),
                cur == acts.deep_view(),
                cur.len() == acts.len(),
                owned == spec_owner_actions(subs0, owner),
                i <= acts.len(),
                match owner_idx {
                    Some(k) => k < self.subs.len() && owned == subs0[k as int].actions && owned.len()
                        == self.subs[k as int].actions.len(),
                    None => owned.len() == 0,
                },
                msgs.deep_view() == spec_new_action_messages(subs0, owner, cur.take(i as int)),
            decreases acts.len() - i,
        {
            let ghost apre = cur.take(i as int);
            let ghost apre1 = cur.take(i + 1);
            proof {
                reveal(Seq::filter);
                assert(apre1.drop_last() =~= apre);
                assert(apre1.last() == cur[i as int]);
                assert(cur[i as int] == acts[i as int]@);
            }
            let known = match owner_idx {
                Some(k) => has_pid_exec(&self.subs[k].actions, acts[i].pid),
                None => false,
            };
            if !known {
                let m = new_action_message(&acts[i]);
                msgs.push(m);
                proof {
                    reveal(Seq::filter);
                    assert(!has_pid(owned, cur[i as int].pid));
                    let p = |a: ActView| !has_pid(spec_owner_actions(subs0, owner), a.pid);
                    assert(apre1.filter(p) =~= apre.filter(p).push(cur[i as int]));
                    assert(spec_new_action_messages(subs0, owner, apre1)
                        =~= spec_new_action_messages(subs0, owner, apre).push(
                        spec_new_action_message(cur[i as int].kind, cur[i as int].description),
                    ));
                    assert(msgs.deep_view() =~= spec_new_action_messages(subs0, owner, apre1));
                }
            } else {
                proof {
                    reveal(Seq::filter);
                    assert(has_pid(owned, cur[i as int].pid));
                    assert(msgs.deep_view() =~= spec_new_action_messages(subs0, owner, apre1));
                }
            }
            i += 1;
        }
        proof {
            assert(cur.take(cur.len() as int) =~= cur);
        }
        let refreshed = self.subscribe(owner, procs);
        proof {
            match refreshed {
                Some(_) => {},
                None => {},
            }
        }
        msgs
    }

    /// One monitoring tick, in a fixed order: first (when auto-notify is
    /// on) new-activity detection and the owner's snapshot refresh, then
    /// the general completion diff — so an activity that has just
    /// started is never reported completed in the same tick.
    pub fn process_check_timer(&mut self, owner: u64, auto: bool, procs: &Vec<ProcessInfo>) -> (r:
        (Vec<String>, Vec<CompletionNotice>))
        requires
            old(self).wf(),
        ensures
            final(self).wf(),
            ({
                let acts = spec_classify(procs.deep_view());
                let mid = if auto && acts.len() > 0 {
                    spec_subscribe(old(self)@, owner, acts)
                } else {
                    old(self)@
                };
                &&& r.0.deep_view() == if auto {
                    spec_new_action_messages(old(self)@, owner, acts)
                } else {
                    Seq::<Seq<char>>::empty()
                }
                &&& final(self)@ == spec_poll_subs(mid, acts)
                &&& r.1.deep_view() == spec_poll_notices(mid, acts)
            }),
    {
        let msgs: Vec<String> = if auto {
            self.auto_notify(owner, procs)
        } else {
            let e: Vec<String> = Vec::new();
            proof {
                assert(e.deep_view() =~= Seq::<Seq<char>>::empty());
            }
            e
        };
        let notices = self.poll(procs);
        (msgs, notices)
    }
}

/// The reply to an unrecognized command: the command echoed back, then
/// the help text.
pub open spec fn spec_unknown_reply(text: Seq<char>) -> Seq<char> {
    "Unknown command: "@ + text + ". \n"@ + spec_help_text()
}

impl ActivityTracker {
    /// How many subscribers are stored.
    pub fn subscriber_count(&self) -> (r: usize)
        ensures
            r == self@.len(),
    {
        proof {
            assert(self@.len() == self.subs@.len());
        }
        self.subs.len()
    }

    /// The stored snapshot of one subscriber, or nothing when the
    /// subscriber is not stored.
    pub fn stored_actions(&self, id: u64) -> (r: Option<Vec<ObservedActivity>>)
        ensures
            match r {
                Some(v) => has_sub(self@, id) && v.deep_view() == self@[first_sub(
                    self@,
                    id,
                )].actions,
                None => !has_sub(self@, id),
            },
    {
        match self.find_sub(id) {
            Some(i) => {
                proof {
                    lemma_first_sub_unique(self@, id, i as int);
                    assert(self@.len() == self.subs@.len());
                }
                let ghost actions = self@[i as int].actions;
                let mut v: Vec<ObservedActivity> = Vec::new();
                let mut j: usize = 0;
                while j < self.subs[i].actions.len()
                    invariant
                        i < self.subs.len(),
                        actions == self.subs.deep_view()[i as int].actions,
                        actions.len() == self.subs[i as int].actions.len(),
                        j <= actions.len(),
                        v.deep_view() == actions.take(j as int),
                    decreases actions.len() - j,
                {
                    proof {
                        assert(actions[j as int] == self.subs[i as int].actions[j as int]@);
                    }
                    let a = self.subs[i].actions[j].duplicate();
                    let ghost v0 = v.deep_view();
                    v.push(a);
                    proof {
                        assert(v.deep_view() =~= v0.push(actions[j as int]));
                        assert(v0.push(actions[j as int]) =~= actions.take(j + 1));
                    }
                    j += 1;
                }
                proof {
                    assert(actions.take(actions.len() as int) =~= actions);
                }
                Some(v)
            },
            None => None,
        }
    }

    /// Answers one inbound message: a help request gets the help text, a
    /// subscription request runs `subscribe` for the sender and reports
    /// its outcome, and anything else is echoed back with the help text.
    /// Only a subscription request mutates the tracker.
    pub fn process_message(&mut self, sender: u64, text: &str, procs: &Vec<ProcessInfo>) -> (r:
        String)
        requires
            old(self).wf(),
        ensures
            final(self).wf(),
            ({
                let t = spec_core_token(text@);
                let acts = spec_classify(procs.deep_view());
                &&& t == "help"@ ==> r@ == spec_help_text() && final(self)@ == old(self)@
                &&& t != "help"@ && t == "subscribe"@ ==> {
                    &&& acts.len() == 0 ==> r@ == "There is no current action"@ && final(self)@
                        == old(self)@
                    &&& acts.len() > 0 ==> r@ == spec_subscribe_message(acts) && final(self)@
                        == spec_subscribe(old(self)@, sender, acts)
                }
                &&& t != "help"@ && t != "subscribe"@ ==> r@ == spec_unknown_reply(text@)
                    && final(self)@ == old(self)@
            }),
    {
        if command_is(text, "help") {
            get_string_help()
        } else if command_is(text, "subscribe") {
            match self.subscribe(sender, procs) {
                Some(m) => m,
                None => String::from_str("There is no current action"),
            }
        } else {
            let mut m = String::from_str("Unknown command: ");
            m.append(text);
            m.append(". \n");
            let h = get_string_help();
            m.append(h.as_str());
            m
        }
    }
}

} // verus!
