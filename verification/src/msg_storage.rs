//! The message lifecycle store: a TTL-indexed record of sent-message
//! identifiers with set-semantics insertion and removal, plus its textual
//! persistence format (JSON of key pairs and date-and-time texts).

use vstd::prelude::*;

verus! {

/// Seconds of the earliest moment the store stamps or formats (the Unix
/// epoch).
pub const TS_MIN: i64 = 0;

/// Seconds of the latest moment the store stamps or formats
/// (9999-12-31 23:59:59 UTC), chosen so that every stored timestamp has a
/// four-digit year and a well-defined rendering.
pub const TS_MAX: i64 = 253402300799;

/// The key of one recorded message: destination chat and message id.
#[derive(PartialEq, Eq, Structural, Clone, Copy, Debug)]
pub struct MessageKey {
    pub chat_id: i64,
    pub message_id: i64,
}

/// Some entry carries the key `k`.
pub open spec fn has_key(s: Seq<(MessageKey, i64)>, k: MessageKey) -> bool {
    exists|i: int| 0 <= i < s.len() && s[i].0 == k
}

/// Entries are keyed uniquely and every timestamp lies in the supported
/// range.
pub open spec fn wf_entries(s: Seq<(MessageKey, i64)>) -> bool {
    &&& forall|i: int, j: int| 0 <= i < j < s.len() ==> s[i].0 != s[j].0
    &&& forall|i: int| 0 <= i < s.len() ==> TS_MIN <= #[trigger] s[i].1 <= TS_MAX
}

/// Recording `k` at `t`: a no-op when `k` is already present, else an
/// appended entry stamped `t`.
pub open spec fn spec_record(s: Seq<(MessageKey, i64)>, k: MessageKey, t: i64) -> Seq<
    (MessageKey, i64),
> {
    if has_key(s, k) {
        s
    } else {
        s.push((k, t))
    }
}

/// The keys of all entries stamped strictly before `cutoff`.
pub open spec fn spec_old_keys(s: Seq<(MessageKey, i64)>, cutoff: int) -> Seq<MessageKey> {
    s.filter(|e: (MessageKey, i64)| (e.1 as int) < cutoff).map_values(|e: (MessageKey, i64)| e.0)
}

/// The keys of all entries more than `age_secs` old as of the moment `t`.
pub open spec fn spec_old_keys_aged(s: Seq<(MessageKey, i64)>, age_secs: i64, t: i64) -> Seq<
    MessageKey,
> {
    spec_old_keys(s, t as int - age_secs as int)
}

/// The entries whose keys are not listed in `keys`.
pub open spec fn spec_remove(s: Seq<(MessageKey, i64)>, keys: Seq<MessageKey>) -> Seq<
    (MessageKey, i64),
> {
    s.filter(|e: (MessageKey, i64)| !keys.contains(e.0))
}

/// Recording the same key twice leaves the store exactly as the first
/// recording left it, whatever moments the two recordings happen at.
pub proof fn lemma_record_idempotent(s: Seq<(MessageKey, i64)>, k: MessageKey, t1: i64, t2: i64)
    ensures
        spec_record(spec_record(s, k, t1), k, t2) == spec_record(s, k, t1),
{
    let s1 = spec_record(s, k, t1);
    if has_key(s, k) {
        assert(has_key(s1, k));
    } else {
        assert(s1[s.len() as int].0 == k);
        assert(has_key(s1, k));
    }
}

/// The ISO-8601-style text chrono renders for the moment `t` seconds
/// after the Unix epoch.
pub uninterp spec fn iso_of(t: i64) -> Seq<char>;

/// The JSON text serde_json renders for a list of key pairs and
/// date-and-time texts.
pub uninterp spec fn json_of(entries: Seq<((i64, i64), Seq<char>)>) -> Seq<char>;

/// The persisted shape of the store's contents: each entry as its key
/// pair and the rendering of its timestamp.
pub open spec fn spec_render(m: Seq<(MessageKey, i64)>) -> Seq<((i64, i64), Seq<char>)> {
    m.map_values(|e: (MessageKey, i64)| ((e.0.chat_id, e.0.message_id), iso_of(e.1)))
}

/// Relies on chrono's `Utc::now` and `DateTime::timestamp`: the current
/// moment as whole seconds since the Unix epoch. Assumes the host clock
/// reads between the epoch and the year 9999.
#[verifier::external_body]
fn now_ts() -> (r: i64)
    ensures
        TS_MIN <= r <= TS_MAX,
{
    chrono::Utc::now().timestamp()
}

/// Relies on chrono's `DateTime::from_timestamp` and its `Display`
/// rendering: a moment in the supported range renders as a
/// date-and-time text that is a function of `t` alone.
#[verifier::external_body]
fn format_ts(t: i64) -> (r: String)
    requires
        TS_MIN <= t <= TS_MAX,
    ensures
        r@ == iso_of(t),
{
    match chrono::DateTime::<chrono::Utc>::from_timestamp(t, 0) {
        Some(d) => d.to_string(),
        None => String::new(),
    }
}

/// The moment chrono reads from a date-and-time text, if the text parses
/// at all; a function of the text alone.
pub uninterp spec fn chrono_secs_of(s: Seq<char>) -> Option<i64>;

/// Relies on chrono's `FromStr` for `DateTime<Utc>`: the outcome depends
/// on the text alone, and the relaxed parser accepts the text `Display`
/// writes — on such a text it returns the very moment that was rendered.
#[verifier::external_body]
fn parse_ts(s: &str) -> (r: Option<i64>)
    ensures
        r == chrono_secs_of(s@),
        r is None ==> forall|t: i64| TS_MIN <= t <= TS_MAX ==> s@ != #[trigger] iso_of(t),
        r matches Some(u) ==> forall|t: i64|
            TS_MIN <= t <= TS_MAX && s@ == #[trigger] iso_of(t) ==> u == t,
{
    match s.parse::<chrono::DateTime<chrono::Utc>>() {
        Ok(d) => Some(d.timestamp()),
        Err(_) => None,
    }
}

/// Relies on serde_json's `to_string`: the JSON it writes for the list is
/// a function of the list's contents alone, and for this shape — a
/// vector of integer pairs and strings — serialization never fails, per
/// serde_json's own account of when `to_string` errs.
#[verifier::external_body]
fn entries_to_json(v: &Vec<((i64, i64), String)>) -> (r: String)
    ensures
        r@ == json_of(v.deep_view()),
{
    match serde_json::to_string(v) {
        Ok(s) => s,
        Err(_) => String::new(),
    }
}

/// The list of key pairs and date-and-time texts serde_json reads from a
/// text, if the text reads as that shape at all; a function of the text
/// alone.
pub uninterp spec fn json_entries_of(s: Seq<char>) -> Option<Seq<((i64, i64), Seq<char>)>>;

/// Relies on serde_json's `from_str`: the outcome depends on the text
/// alone, and on a text that `to_string` wrote, parsing returns exactly
/// the list that was written.
#[verifier::external_body]
fn entries_from_json(s: &str) -> (r: Option<Vec<((i64, i64), String)>>)
    ensures
        r is None ==> json_entries_of(s@) is None,
        r matches Some(v) ==> json_entries_of(s@) == Some(v.deep_view()),
        r is None ==> forall|m: Seq<((i64, i64), Seq<char>)>| s@ != #[trigger] json_of(m),
        r matches Some(v) ==> forall|m: Seq<((i64, i64), Seq<char>)>|
            s@ == #[trigger] json_of(m) ==> v.deep_view() == m,
{
    match serde_json::from_str::<Vec<((i64, i64), String)>>(s) {
        Ok(v) => Some(v),
        Err(_) => None,
    }
}

/// The store a list of persisted entries loads as, one entry at a time
/// in order: an entry joins when its date-and-time text parses, the
/// parsed moment lies in the supported range, and its key is not taken
/// yet; every other entry is silently dropped.
pub open spec fn spec_load(v: Seq<((i64, i64), Seq<char>)>) -> Seq<(MessageKey, i64)>
    decreases v.len(),
{
    if v.len() == 0 {
        Seq::empty()
    } else {
        let acc = spec_load(v.drop_last());
        let e = v.last();
        let key = MessageKey { chat_id: e.0.0, message_id: e.0.1 };
        match chrono_secs_of(e.1) {
            Some(t) => if TS_MIN <= t <= TS_MAX && !has_key(acc, key) {
                acc.push((key, t))
            } else {
                acc
            },
            None => acc,
        }
    }
}

/// Whether `k` occurs in `keys`.
fn key_in(keys: &Vec<MessageKey>, k: MessageKey) -> (r: bool)
    ensures
        r == keys@.contains(k),
{
    let mut i: usize = 0;
    while i < keys.len()
        invariant
            i <= keys@.len(),
            forall|j: int| 0 <= j < i ==> keys@[j] != k,
        decreases keys@.len() - i,
    {
        if keys[i] == k {
            return true;
        }
        i += 1;
    }
    false
}

/// The TTL-indexed record set of sent messages.
pub struct MessageStorage {
    entries: Vec<(MessageKey, i64)>,
}

impl View for MessageStorage {
    type V = Seq<(MessageKey, i64)>;

    closed spec fn view(&self) -> Seq<(MessageKey, i64)> {
        self.entries@
    }
}

impl MessageStorage {
    /// The store's invariant: unique keys, timestamps in range.
    pub open spec fn wf(&self) -> bool {
        wf_entries(self@)
    }

    /// An empty store.
    pub fn new() -> (r: MessageStorage)
        ensures
            r@ == Seq::<(MessageKey, i64)>::empty(),
            r.wf(),
    {
        MessageStorage { entries: Vec::new() }
    }

    /// How many keys are recorded.
    pub fn message_count(&self) -> (r: usize)
        ensures
            r == self@.len(),
    {
        self.entries.len()
    }

    /// Whether `key` is recorded.
    pub fn contains_key(&self, key: MessageKey) -> (r: bool)
        ensures
            r == has_key(self@, key),
    {
        let mut i: usize = 0;
        while i < self.entries.len()
            invariant
                i <= self@.len(),
                forall|j: int| 0 <= j < i ==> self@[j].0 != key,
            decreases self@.len() - i,
        {
            if self.entries[i].0 == key {
                return true;
            }
            i += 1;
        }
        false
    }

    /// Records `key` as of the moment `now`; a no-op when `key` is
    /// already present, so the first recording's timestamp is kept.
    pub fn add_message_at(&mut self, key: MessageKey, now: i64)
        requires
            old(self).wf(),
            TS_MIN <= now <= TS_MAX,
        ensures
            final(self).wf(),
            final(self)@ == spec_record(old(self)@, key, now),
    {
        if self.contains_key(key) {
            return ;
        }
        self.entries.push((key, now));
    }

    /// Records `key` as of the current moment; a no-op when `key` is
    /// already present.
    pub fn add_message(&mut self, key: MessageKey)
        requires
            old(self).wf(),
        ensures
            final(self).wf(),
            has_key(old(self)@, key) ==> final(self)@ == old(self)@,
            !has_key(old(self)@, key) ==> exists|t: i64|
                TS_MIN <= t <= TS_MAX && final(self)@ == old(self)@.push((key, t)),
    {
        let t = now_ts();
        self.add_message_at(key, t);
    }

    /// The keys recorded strictly earlier than `now - age_secs`.
    pub fn get_old_messages_at(&self, age_secs: i64, now: i64) -> (r: Vec<MessageKey>)
        ensures
            r@ == spec_old_keys(self@, now as int - age_secs as int),
    {
        let ghost cutoff = now as int - age_secs as int;
        let mut r: Vec<MessageKey> = Vec::new();
        let mut i: usize = 0;
        while i < self.entries.len()
            invariant
                i <= self@.len(),
                cutoff == now as int - age_secs as int,
                r@ == spec_old_keys(self@.take(i as int), cutoff),
            decreases self@.len() - i,
        {
            let ghost prefix = self@.take(i as int);
            let ghost prefix1 = self@.take(i + 1);
            let e = self.entries[i];
            proof {
                reveal(Seq::filter);
                assert(prefix1.drop_last() =~= prefix);
                assert(prefix1.last() == self@[i as int]);
            }
            if (e.1 as i128) < (now as i128) - (age_secs as i128) {
                r.push(e.0);
                proof {
                    reveal(Seq::filter);
                    assert(r@ =~= spec_old_keys(prefix1, cutoff));
                }
            } else {
                proof {
                    reveal(Seq::filter);
                    assert(r@ =~= spec_old_keys(prefix1, cutoff));
                }
            }
            i += 1;
        }
        proof {
            assert(self@.take(self@.len() as int) =~= self@);
        }
        r
    }

    /// The keys recorded more than `age_secs` seconds before the current
    /// moment.
    pub fn get_old_messages(&self, age_secs: i64) -> (r: Vec<MessageKey>)
        ensures
            exists|t: i64|
                TS_MIN <= t <= TS_MAX && r@ == #[trigger] spec_old_keys_aged(self@, age_secs, t),
    {
        let t = now_ts();
        let r = self.get_old_messages_at(age_secs, t);
        proof {
            assert(TS_MIN <= t <= TS_MAX && r@ == spec_old_keys_aged(self@, age_secs, t));
        }
        r
    }

    /// The keys recorded more than `age_secs` seconds (given unsigned)
    /// before the current moment.
    pub fn get_old_messages_std(&self, age_secs: u64) -> (r: Vec<MessageKey>)
        requires
            age_secs <= i64::MAX as u64,
        ensures
            exists|t: i64|
                TS_MIN <= t <= TS_MAX && r@ == #[trigger] spec_old_keys_aged(
                    self@,
                    age_secs as i64,
                    t,
                ),
    {
        self.get_old_messages(age_secs as i64)
    }

    /// Removes the listed keys; a key not present is silently ignored.
    pub fn remove_messages(&mut self, msg_list: Vec<MessageKey>)
        requires
            old(self).wf(),
        ensures
            final(self).wf(),
            final(self)@ == spec_remove(old(self)@, msg_list@),
    {
        let ghost orig = self@;
        let mut kept: Vec<(MessageKey, i64)> = Vec::new();
        let mut i: usize = 0;
        while i < self.entries.len()
            invariant
                orig == self@,
                i <= orig.len(),
                kept@ == spec_remove(orig.take(i as int), msg_list@),
            decreases orig.len() - i,
        {
            let ghost prefix = orig.take(i as int);
            let ghost prefix1 = orig.take(i + 1);
            let e = self.entries[i];
            proof {
                reveal(Seq::filter);
                assert(prefix1.drop_last() =~= prefix);
                assert(prefix1.last() == orig[i as int]);
            }
            if !key_in(&msg_list, e.0) {
                kept.push(e);
                proof {
                    reveal(Seq::filter);
                    assert(kept@ =~= spec_remove(prefix1, msg_list@));
                }
            } else {
                proof {
                    reveal(Seq::filter);
                    assert(kept@ =~= spec_remove(prefix1, msg_list@));
                }
            }
            i += 1;
        }
        proof {
            assert(orig.take(orig.len() as int) =~= orig);
            lemma_remove_keeps_wf(orig, msg_list@);
        }
        self.entries = kept;
    }
}

impl MessageStorage {
    /// The store's persisted JSON text: each entry as its key pair and
    /// its timestamp's rendering.
    pub fn to_json_string(&self) -> (r: String)
        requires
            self.wf(),
        ensures
            r@ == json_of(spec_render(self@)),
    {
        let mut v: Vec<((i64, i64), String)> = Vec::new();
        let mut i: usize = 0;
        while i < self.entries.len()
            invariant
                self.wf(),
                i <= self@.len(),
                v.deep_view() == spec_render(self@.take(i as int)),
            decreases self@.len() - i,
        {
            let e = self.entries[i];
            assert(TS_MIN <= e.1 <= TS_MAX);
            let ds = format_ts(e.1);
            let ghost vdv0 = v.deep_view();
            let ghost ov = v@;
            let ghost entry = ((e.0.chat_id, e.0.message_id), ds);
            v.push(((e.0.chat_id, e.0.message_id), ds));
            proof {
                let t1 = self@.take(i + 1);
                assert(vdv0.len() == ov.len());
                assert(spec_render(self@.take(i as int)).len() == i);
                assert(ov.len() == i);
                assert forall|j: int| 0 <= j < i + 1 implies v.deep_view()[j] == spec_render(t1)[j]
                    by {
                    assert(v.deep_view()[j] == v@[j].deep_view());
                    assert(t1[j] == self@[j]);
                    if j < i {
                        assert(v@[j] == ov[j]);
                        assert(v@[j].deep_view() == vdv0[j]);
                        assert(vdv0[j] == spec_render(self@.take(i as int))[j]);
                        assert(spec_render(self@.take(i as int))[j] == (
                            (self@[j].0.chat_id, self@[j].0.message_id),
                            iso_of(self@[j].1),
                        ));
                    } else {
                        assert(v@[j] == entry);
                        assert(v@[j].deep_view() == (v@[j].0.deep_view(), v@[j].1.deep_view()));
                        assert(v@[j].0.deep_view() == (e.0.chat_id, e.0.message_id));
                        assert(v@[j].1.deep_view() == ds@);
                        assert(ds@ == iso_of(e.1));
                        assert(self@[j] == e);
                    }
                }
                assert(v.deep_view() =~= spec_render(t1));
            }
            i += 1;
        }
        proof {
            assert(self@.take(self@.len() as int) =~= self@);
        }
        entries_to_json(&v)
    }

    /// Rebuilds a store from already-parsed persisted entries, exactly
    /// as `spec_load` folds them: each date-and-time text is parsed back
    /// to a moment; an entry whose text does not parse, parses out of
    /// range, or repeats an already-loaded key is silently dropped, and
    /// every other entry loads with its parsed moment. On the exact
    /// rendering of well-formed contents, those contents come back
    /// whole.
    pub fn from_entries(v: &Vec<((i64, i64), String)>) -> (r: MessageStorage)
        ensures
            r.wf(),
            r@ == spec_load(v.deep_view()),
            forall|m: Seq<(MessageKey, i64)>|
                wf_entries(m) && v.deep_view() == #[trigger] spec_render(m) ==> r@ == m,
    {
        let mut st = MessageStorage { entries: Vec::new() };
        let ghost vdv = v.deep_view();
        let mut i: usize = 0;
        while i < v.len()
            invariant
                st.wf(),
                vdv == v.deep_view(),
                i <= v@.len(),
                st@ == spec_load(vdv.take(i as int)),
                forall|m: Seq<(MessageKey, i64)>|
                    wf_entries(m) && vdv == #[trigger] spec_render(m) ==> st@ == m.take(i as int),
            decreases v@.len() - i,
        {
            let ghost st0 = st@;
            let ghost vpre = vdv.take(i as int);
            let ghost vpre1 = vdv.take(i + 1);
            let key = MessageKey { chat_id: v[i].0.0, message_id: v[i].0.1 };
            proof {
                assert(vpre1.drop_last() =~= vpre);
                assert(vpre1.last() == vdv[i as int]);
                assert(vdv[i as int] == v@[i as int].deep_view());
                assert(v@[i as int].deep_view() == (
                    v@[i as int].0.deep_view(),
                    v@[i as int].1.deep_view(),
                ));
                assert(v@[i as int].0.deep_view() == (v@[i as int].0.0, v@[i as int].0.1));
                assert(v@[i as int].1.deep_view() == v@[i as int].1@);
                assert(vdv[i as int] == ((v@[i as int].0.0, v@[i as int].0.1), v@[i as int].1@));
            }
            match parse_ts(v[i].1.as_str()) {
                Some(t) => {
                    if TS_MIN <= t && t <= TS_MAX && !st.contains_key(key) {
                        st.add_message_at(key, t);
                        proof {
                            assert(st@ =~= spec_load(vpre1));
                            assert forall|m: Seq<(MessageKey, i64)>|
                                wf_entries(m) && vdv == #[trigger] spec_render(m) implies st@
                                == m.take(i + 1) by {
                                lemma_render_entry(m, i as int);
                                assert(st0 == m.take(i as int));
                                assert(key == m[i as int].0);
                                assert(t == m[i as int].1);
                                assert(st@ =~= m.take(i + 1));
                            }
                        }
                    } else {
                        proof {
                            assert(st@ == spec_load(vpre1));
                            assert forall|m: Seq<(MessageKey, i64)>|
                                wf_entries(m) && vdv == #[trigger] spec_render(m) implies st@
                                == m.take(i + 1) by {
                                lemma_render_entry(m, i as int);
                                assert(st0 == m.take(i as int));
                                assert(key == m[i as int].0);
                                assert(t == m[i as int].1);
                                assert(!has_key(m.take(i as int), key));
                                assert(false);
                            }
                        }
                    }
                },
                None => {
                    proof {
                        assert(st@ == spec_load(vpre1));
                        assert forall|m: Seq<(MessageKey, i64)>|
                            wf_entries(m) && vdv == #[trigger] spec_render(m) implies st@ == m.take(
                            i + 1,
                        ) by {
                            lemma_render_entry(m, i as int);
                            assert(false);
                        }
                    }
                },
            }
            i += 1;
        }
        proof {
            assert(vdv.take(v@.len() as int) =~= vdv);
            assert forall|m: Seq<(MessageKey, i64)>|
                wf_entries(m) && vdv == #[trigger] spec_render(m) implies st@ == m by {
                lemma_render_entry(m, 0);
                assert(st@ == m.take(m.len() as int));
                assert(m.take(m.len() as int) =~= m);
            }
        }
        st
    }

    /// Rebuilds a store from its persisted JSON text; loading never
    /// fails. A text that does not read as the persisted shape yields an
    /// empty store; one that does loads exactly as `spec_load` folds the
    /// entries it reads as, each with its parsed moment, the unreadable
    /// ones silently dropped. On a text that `to_json_string` wrote for
    /// well-formed contents, those very contents come back.
    pub fn new_from_str(s: &str) -> (r: MessageStorage)
        ensures
            r.wf(),
            match json_entries_of(s@) {
                Some(v) => r@ == spec_load(v),
                None => r@ == Seq::<(MessageKey, i64)>::empty(),
            },
            forall|m: Seq<(MessageKey, i64)>|
                wf_entries(m) && s@ == json_of(#[trigger] spec_render(m)) ==> r@ == m,
    {
        match entries_from_json(s) {
            Some(v) => {
                let r = MessageStorage::from_entries(&v);
                proof {
                    assert(json_entries_of(s@) == Some(v.deep_view()));
                    assert forall|m: Seq<(MessageKey, i64)>|
                        wf_entries(m) && s@ == json_of(#[trigger] spec_render(m)) implies r@
                        == m by {
                        assert(v.deep_view() == spec_render(m));
                    }
                }
                r
            },
            None => {
                let r = MessageStorage::new();
                proof {
                    assert(json_entries_of(s@) is None);
                    assert forall|m: Seq<(MessageKey, i64)>|
                        wf_entries(m) && s@ == json_of(#[trigger] spec_render(m)) implies r@
                        == m by {
                        assert(false);
                    }
                }
                r
            },
        }
    }
}

/// The persisted shape of well-formed contents, entry by entry: the key
/// pair and the timestamp's rendering.
proof fn lemma_render_entry(m: Seq<(MessageKey, i64)>, i: int)
    requires
        0 <= i <= m.len(),
    ensures
        spec_render(m).len() == m.len(),
        i < m.len() ==> spec_render(m)[i] == (
            (m[i].0.chat_id, m[i].0.message_id),
            iso_of(m[i].1),
        ),
{
}

/// The keys to evict after a deletion sweep: every key whose deletion
/// succeeded, and every long-expired key whose deletion keeps failing, so
/// that a chronically failing deletion does not grow the store without
/// bound.
pub open spec fn spec_eviction(
    deleted: Seq<MessageKey>,
    failed: Seq<MessageKey>,
    long_expired: Seq<MessageKey>,
) -> Seq<MessageKey> {
    deleted + long_expired.filter(|k: MessageKey| failed.contains(k))
}

/// The keys to evict after a deletion sweep; see `spec_eviction`.
pub fn eviction_list(
    deleted: Vec<MessageKey>,
    failed: &Vec<MessageKey>,
    long_expired: &Vec<MessageKey>,
) -> (r: Vec<MessageKey>)
    ensures
        r@ == spec_eviction(deleted@, failed@, long_expired@),
{
    let ghost d0 = deleted@;
    let mut r = deleted;
    let mut i: usize = 0;
    while i < long_expired.len()
        invariant
            i <= long_expired@.len(),
            r@ == spec_eviction(d0, failed@, long_expired@.take(i as int)),
        decreases long_expired@.len() - i,
    {
        let ghost prefix = long_expired@.take(i as int);
        let ghost prefix1 = long_expired@.take(i + 1);
        proof {
            reveal(Seq::filter);
            assert(prefix1.drop_last() =~= prefix);
            assert(prefix1.last() == long_expired@[i as int]);
        }
        if key_in(failed, long_expired[i]) {
            r.push(long_expired[i]);
            proof {
                reveal(Seq::filter);
                assert(r@ =~= spec_eviction(d0, failed@, prefix1));
            }
        } else {
            proof {
                reveal(Seq::filter);
                assert(r@ =~= spec_eviction(d0, failed@, prefix1));
            }
        }
        i += 1;
    }
    proof {
        assert(long_expired@.take(long_expired@.len() as int) =~= long_expired@);
    }
    r
}

/// Removing keys keeps the store's invariant: the remaining entries are
/// still uniquely keyed and stamped in range.
proof fn lemma_remove_keeps_wf(s: Seq<(MessageKey, i64)>, keys: Seq<MessageKey>)
    requires
        wf_entries(s),
    ensures
        wf_entries(spec_remove(s, keys)),
        forall|e: (MessageKey, i64)| #[trigger]
            spec_remove(s, keys).contains(e) ==> s.contains(e),
    decreases s.len(),
{
    reveal(Seq::filter);
    if s.len() == 0 {
    } else {
        let rest = s.drop_last();
        assert(wf_entries(rest)) by {
            assert(forall|i: int| 0 <= i < rest.len() ==> rest[i] == s[i]);
        }
        lemma_remove_keeps_wf(rest, keys);
        let fr = spec_remove(rest, keys);
        let f = spec_remove(s, keys);
        assert(forall|e: (MessageKey, i64)| #[trigger]
            rest.contains(e) ==> s.contains(e)) by {
            assert forall|e: (MessageKey, i64)| #[trigger] rest.contains(e) implies s.contains(
                e,
            ) by {
                let j = choose|j: int| 0 <= j < rest.len() && rest[j] == e;
                assert(s[j] == e);
            }
        }
        if !keys.contains(s.last().0) {
            assert(f == fr.push(s.last()));
            assert forall|i1: int| 0 <= i1 < fr.len() implies #[trigger] fr[i1].0
                != s.last().0 by {
                assert(fr.contains(fr[i1]));
                let j = choose|j: int| 0 <= j < rest.len() && rest[j] == fr[i1];
                assert(s[j] == fr[i1]);
                assert(s[j].0 != s[s.len() - 1].0);
            }
            assert forall|e: (MessageKey, i64)| #[trigger] f.contains(e) implies s.contains(e) by {
                let j = choose|j: int| 0 <= j < f.len() && f[j] == e;
                if j < f.len() - 1 {
                    assert(fr[j] == e);
                    assert(fr.contains(e));
                } else {
                    assert(e == s.last());
                    assert(s[s.len() - 1] == e);
                }
            }
        } else {
            assert(f == fr);
        }
    }
}

} // verus!
