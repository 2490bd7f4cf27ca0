//! The discovery reconciler's planning step: keep the set of watchers
//! equal to the set of live containers whose image matches one of
//! the configured images.
//!
//! Image matching strips a trailing `:tag` — the part from the last `:`
//! on, and only when no `/` follows that colon, since a colon before a `/`
//! belongs to a registry port — and compares the remainder to each
//! configured image exactly. Each
//! poll hands the reconciler the fresh container list; the reconciler
//! starts a watcher for every newly seen matching container and stops the
//! watcher of every container no longer present. A failed poll leaves the
//! watched set untouched and only shortens the delay until the next poll.

use vstd::prelude::*;

verus! {

/// One container as discovery reports it: identity, display names, image.
pub struct ContainerInfo {
    pub id: String,
    pub names: Vec<String>,
    pub image: String,
}

/// One watcher the reconciler owns: the container's identity and its
/// display name.
pub struct TrackedWatcher {
    pub id: String,
    pub name: String,
}

/// What one poll asks the runner to do: start a watcher for each entry of
/// `started`, cancel and await the watcher of each entry of `stopped`.
pub struct PollPlan {
    pub started: Vec<TrackedWatcher>,
    pub stopped: Vec<TrackedWatcher>,
}

/// Poll delay after a successful discovery call, in seconds.
pub const POLL_DELAY_OK_SECS: u64 = 60;

/// Poll delay after a failed discovery call, in seconds.
pub const POLL_DELAY_ERR_SECS: u64 = 10;

/// Whether the sequence holds a `:`.
pub open spec fn has_colon(s: Seq<char>) -> bool {
    exists|i: int| 0 <= i < s.len() && s[i] == ':'
}

/// Index of the last `:` of a sequence that holds one.
pub open spec fn last_colon(s: Seq<char>) -> int
    decreases s.len(),
{
    if s.len() == 0 {
        0
    } else if s.last() == ':' {
        s.len() - 1
    } else {
        last_colon(s.drop_last())
    }
}

/// Whether the sequence holds a `/` strictly after position `p`.
pub open spec fn slash_after(s: Seq<char>, p: int) -> bool {
    exists|j: int| p < j < s.len() && s[j] == '/'
}

/// An image reference with a trailing `:tag` stripped. The part from the
/// last `:` on is a tag only when no `/` follows that colon (a colon
/// followed by a `/` marks a registry port, not a tag); a reference
/// without a trailing tag is kept whole.
pub open spec fn image_base(s: Seq<char>) -> Seq<char> {
    if has_colon(s) && !slash_after(s, last_colon(s)) {
        s.subrange(0, last_colon(s))
    } else {
        s
    }
}

/// Whether a container image matches one of the configured images.
pub open spec fn image_matches(images: Seq<String>, image: Seq<char>) -> bool {
    exists|i: int| 0 <= i < images.len() && images[i]@ == image_base(image)
}

/// The display name a container is watched under: its first reported name,
/// or its identity when it reports none.
pub open spec fn display_name(c: ContainerInfo) -> Seq<char> {
    if c.names@.len() > 0 {
        c.names@[0]@
    } else {
        c.id@
    }
}

/// Whether the first `n` containers of the fresh list hold a matching
/// container with this identity.
pub open spec fn matching_prefix(
    cs: Seq<ContainerInfo>,
    images: Seq<String>,
    id: Seq<char>,
    n: int,
) -> bool {
    exists|i: int|
        0 <= i < n <= cs.len() && #[trigger] cs[i].id@ == id && image_matches(images, cs[i].image@)
}

/// Whether the fresh container list holds a matching container with this
/// identity.
pub open spec fn matching_id(cs: Seq<ContainerInfo>, images: Seq<String>, id: Seq<char>) -> bool {
    matching_prefix(cs, images, id, cs.len() as int)
}

/// The set of watchers the reconciler owns, keyed by container identity.
pub struct WatcherSet {
    pub watchers: Vec<TrackedWatcher>,
}

/// Whether a sequence of watcher entries holds this container identity.
pub open spec fn has_id(s: Seq<TrackedWatcher>, id: Seq<char>) -> bool {
    exists|i: int| 0 <= i < s.len() && #[trigger] s[i].id@ == id
}

/// A started watcher entry is backed by a matching container of the fresh
/// list and carries that container's display name.
pub open spec fn started_entry_ok(
    cs: Seq<ContainerInfo>,
    images: Seq<String>,
    e: TrackedWatcher,
) -> bool {
    exists|j: int|
        0 <= j < cs.len() && #[trigger] cs[j].id@ == e.id@ && image_matches(images, cs[j].image@)
            && e.name@ == display_name(cs[j])
}

proof fn lemma_last_colon_at(s: Seq<char>, p: int)
    requires
        0 <= p < s.len(),
        s[p] == ':',
        forall|j: int| p < j < s.len() ==> s[j] != ':',
    ensures
        has_colon(s),
        last_colon(s) == p,
    decreases s.len(),
{
    if p == s.len() - 1 {
    } else {
        assert(s.last() != ':');
        assert(s.drop_last()[p] == ':');
        lemma_last_colon_at(s.drop_last(), p);
    }
}

proof fn lemma_last_colon_props(s: Seq<char>)
    requires
        has_colon(s),
    ensures
        0 <= last_colon(s) < s.len(),
        s[last_colon(s)] == ':',
        forall|j: int| last_colon(s) < j < s.len() ==> s[j] != ':',
    decreases s.len(),
{
    if s.last() == ':' {
    } else {
        assert(has_colon(s.drop_last())) by {
            let j = choose|j: int| 0 <= j < s.len() && s[j] == ':';
            assert(j < s.len() - 1);
            assert(s.drop_last()[j] == ':');
        }
        lemma_last_colon_props(s.drop_last());
        assert forall|j: int| last_colon(s) < j < s.len() implies s[j] != ':' by {
            if j < s.len() - 1 {
                assert(s.drop_last()[j] != ':');
                assert(s.drop_last()[j] == s[j]);
            }
        }
    }
}

proof fn lemma_no_colon(s: Seq<char>)
    requires
        forall|j: int| 0 <= j < s.len() ==> s[j] != ':',
    ensures
        !has_colon(s),
{
}

/// Strip any trailing `:tag` from an image reference.
#[verifier::loop_isolation(false)]
pub fn image_base_exec(image: &str) -> (r: String)
    ensures
        r@ == image_base(image@),
{
    let n = image.unicode_len();
    let mut i: usize = n;
    while i > 0
        invariant
            0 <= i <= n == image@.len(),
            forall|j: int| i <= j < n ==> image@[j] != ':' && image@[j] != '/',
        decreases i,
    {
        let c = image.get_char(i - 1);
        if c == ':' {
            // the last colon, with no `/` after it: a trailing tag
            proof {
                lemma_last_colon_at(image@, i - 1);
                assert(!slash_after(image@, i - 1));
            }
            let base = image.substring_char(0, i - 1);
            return base.to_owned();
        }
        if c == '/' {
            // a `/` with no colon after it: any colon lies before it, so
            // nothing trailing is a tag
            proof {
                if has_colon(image@) {
                    lemma_last_colon_props(image@);
                    assert(last_colon(image@) < i - 1);
                    assert(slash_after(image@, last_colon(image@)));
                }
            }
            return image.to_owned();
        }
        i = i - 1;
    }
    proof {
        lemma_no_colon(image@);
    }
    image.to_owned()
}

/// Whether a container image matches one of the configured images, with
/// any trailing `:tag` stripped first.
#[verifier::loop_isolation(false)]
pub fn image_matches_exec(images: &Vec<String>, image: &str) -> (r: bool)
    ensures
        r == image_matches(images@, image@),
{
    let base = image_base_exec(image);
    let n = images.len();
    let mut i: usize = 0;
    while i < n
        invariant
            0 <= i <= n == images@.len(),
            forall|j: int| 0 <= j < i ==> images@[j]@ != image_base(image@),
        decreases n - i,
    {
        if images[i].eq(&base) {
            return true;
        }
        i = i + 1;
    }
    false
}

impl WatcherSet {
    /// Whether a watcher exists for this container identity.
    pub open spec fn watched(self, id: Seq<char>) -> bool {
        has_id(self.watchers@, id)
    }

    /// At most one watcher per container identity.
    pub open spec fn wf(self) -> bool {
        forall|i: int, j: int|
            0 <= i < j < self.watchers@.len() ==> #[trigger] self.watchers@[i].id@
                != #[trigger] self.watchers@[j].id@
    }

    /// An empty watcher set.
    pub fn new() -> (r: WatcherSet)
        ensures
            r.wf(),
            forall|id: Seq<char>| !r.watched(id),
    {
        WatcherSet { watchers: Vec::new() }
    }

    /// How many watchers the set holds.
    pub fn len(&self) -> (n: usize)
        ensures
            n == self.watchers@.len(),
    {
        self.watchers.len()
    }

    /// Whether a watcher exists for this container identity.
    #[verifier::loop_isolation(false)]
    pub fn contains(&self, id: &String) -> (r: bool)
        ensures
            r == self.watched(id@),
    {
        let n = self.watchers.len();
        let mut i: usize = 0;
        while i < n
            invariant
                0 <= i <= n == self.watchers@.len(),
                forall|j: int| 0 <= j < i ==> self.watchers@[j].id@ != id@,
            decreases n - i,
        {
            if self.watchers[i].id.eq(id) {
                return true;
            }
            i = i + 1;
        }
        false
    }

    /// One reconciliation step over a successful poll: after it, a watcher
    /// exists exactly for each matching container of the fresh list. The
    /// plan names every watcher started (matching and not yet watched,
    /// under the container's display name) and every watcher stopped
    /// (watched and no longer matching).
    #[verifier::loop_isolation(false)]
    pub fn apply_poll(
        &mut self,
        containers: &Vec<ContainerInfo>,
        images: &Vec<String>,
    ) -> (plan: PollPlan)
        requires
            old(self).wf(),
        ensures
            final(self).wf(),
            forall|id: Seq<char>| #[trigger]
                final(self).watched(id) <==> matching_id(containers@, images@, id),
            forall|p: int|
                0 <= p < plan.started@.len() ==> !old(self).watched(
                    (#[trigger] plan.started@[p]).id@,
                ),
            forall|p: int|
                0 <= p < plan.started@.len() ==> started_entry_ok(
                    containers@,
                    images@,
                    #[trigger] plan.started@[p],
                ),
            forall|id: Seq<char>|
                matching_id(containers@, images@, id) && !old(self).watched(id)
                    ==> #[trigger] has_id(plan.started@, id),
            forall|p: int|
                0 <= p < plan.stopped@.len() ==> old(self).watched(
                    (#[trigger] plan.stopped@[p]).id@,
                ) && !matching_id(containers@, images@, plan.stopped@[p].id@),
            forall|id: Seq<char>|
                old(self).watched(id) && !matching_id(containers@, images@, id)
                    ==> #[trigger] has_id(plan.stopped@, id),
            forall|p: int, q: int|
                0 <= p < q < plan.started@.len() ==> (#[trigger] plan.started@[p]).id@ != (
                #[trigger] plan.started@[q]).id@,
            forall|p: int, q: int|
                0 <= p < q < plan.stopped@.len() ==> (#[trigger] plan.stopped@[p]).id@ != (
                #[trigger] plan.stopped@[q]).id@,
    {
        let ghost w0 = self.watchers@;
        let mut started: Vec<TrackedWatcher> = Vec::new();
        let nc = containers.len();
        let mut ci: usize = 0;
        while ci < nc
            invariant
                0 <= ci <= nc == containers@.len(),
                self.wf(),
                self.watchers@.len() == w0.len() + started@.len(),
                forall|j: int| 0 <= j < w0.len() ==> self.watchers@[j] == w0[j],
                forall|p: int|
                    0 <= p < started@.len() ==> self.watchers@[w0.len() + p] == (
                    #[trigger] started@[p]),
                forall|id: Seq<char>| #[trigger]
                    has_id(self.watchers@, id) <==> old(self).watched(id) || matching_prefix(
                        containers@,
                        images@,
                        id,
                        ci as int,
                    ),
                forall|p: int|
                    0 <= p < started@.len() ==> !old(self).watched(
                        (#[trigger] started@[p]).id@,
                    ),
                forall|p: int|
                    0 <= p < started@.len() ==> started_entry_ok(
                        containers@,
                        images@,
                        #[trigger] started@[p],
                    ),
                forall|p: int, q: int|
                    0 <= p < q < started@.len() ==> (#[trigger] started@[p]).id@ != (
                    #[trigger] started@[q]).id@,
            decreases nc - ci,
        {
            let c = &containers[ci];
            let ghost cid = c.id@;
            if image_matches_exec(images, c.image.as_str()) {
                if !self.contains(&c.id) {
                    let name: String = if c.names.len() > 0 {
                        c.names[0].clone()
                    } else {
                        c.id.clone()
                    };
                    let entry = TrackedWatcher { id: c.id.clone(), name };
                    let entry2 = clone_watcher(&entry);
                    let ghost ge = entry;
                    assert(ge.id@ == cid && ge.name@ == display_name(containers@[ci as int]));
                    let ghost wmid = self.watchers@;
                    let ghost smid = started@;
                    proof {
                        // the pushed identity is new, so uniqueness is kept
                        assert forall|p: int, q: int|
                            0 <= p < q < wmid.push(ge).len() implies #[trigger] wmid.push(
                            ge,
                        )[p].id@ != #[trigger] wmid.push(ge)[q].id@ by {
                            if q == wmid.len() {
                                assert(wmid.push(ge)[p] == wmid[p]);
                                assert(wmid[p].id@ == wmid.push(ge)[p].id@);
                                if wmid.push(ge)[p].id@ == cid {
                                    assert(has_id(wmid, cid));
                                }
                            } else {
                                assert(wmid.push(ge)[p] == wmid[p] && wmid.push(ge)[q] == wmid[q]);
                            }
                        }
                    }
                    self.watchers.push(entry);
                    started.push(entry2);
                    proof {
                        assert(self.watchers@ == wmid.push(ge));
                        assert(started@ == smid.push(ge));
                        assert(self.watchers@.len() == w0.len() + started@.len());
                        assert forall|j: int| 0 <= j < w0.len() implies self.watchers@[j]
                            == w0[j] by {
                            assert(self.watchers@[j] == wmid[j]);
                        }
                        assert forall|p: int|
                            0 <= p < started@.len() implies self.watchers@[w0.len() + p] == (
                        #[trigger] started@[p]) by {
                            if p < smid.len() {
                                assert(self.watchers@[w0.len() + p] == wmid[w0.len() + p]);
                                assert(started@[p] == smid[p]);
                            } else {
                                assert(self.watchers@[w0.len() + p] == ge);
                                assert(started@[p] == ge);
                            }
                        }
                        assert forall|id: Seq<char>| #[trigger]
                            has_id(self.watchers@, id) <==> old(self).watched(id)
                                || matching_prefix(containers@, images@, id, ci + 1) by {
                            lemma_has_id_push(wmid, ge, id);
                            lemma_matching_prefix_step(containers@, images@, id, ci as int);
                        }
                        assert forall|p: int|
                            0 <= p < started@.len() implies !old(self).watched(
                            (#[trigger] started@[p]).id@,
                        ) && started_entry_ok(containers@, images@, started@[p]) by {
                            if p < smid.len() {
                                assert(started@[p] == smid[p]);
                            } else {
                                assert(started@[p] == ge);
                                assert(containers@[ci as int].id@ == ge.id@ && image_matches(
                                    images@,
                                    containers@[ci as int].image@,
                                ) && ge.name@ == display_name(containers@[ci as int]));
                            }
                        }
                        // the new entry's identity differs from every entry
                        // already started: those all stand in the watcher
                        // vector, which did not hold it
                        assert forall|p: int, q: int|
                            0 <= p < q < started@.len() implies (#[trigger] started@[p]).id@ != (
                        #[trigger] started@[q]).id@ by {
                            if q == smid.len() {
                                assert(started@[p] == smid[p] && started@[q] == ge);
                                assert(wmid[w0.len() + p] == smid[p]);
                                if smid[p].id@ == cid {
                                    assert(has_id(wmid, cid));
                                }
                            } else {
                                assert(started@[p] == smid[p] && started@[q] == smid[q]);
                            }
                        }
                    }
                } else {
                    proof {
                        assert forall|id: Seq<char>| #[trigger]
                            has_id(self.watchers@, id) <==> old(self).watched(id)
                                || matching_prefix(containers@, images@, id, ci + 1) by {
                            lemma_matching_prefix_step(containers@, images@, id, ci as int);
                            if id == cid {
                                assert(self.watched(id));
                            }
                        }
                    }
                }
            } else {
                proof {
                    assert forall|id: Seq<char>| #[trigger]
                        has_id(self.watchers@, id) <==> old(self).watched(id) || matching_prefix(
                        containers@,
                        images@,
                        id,
                        ci + 1,
                    ) by {
                        lemma_matching_prefix_step(containers@, images@, id, ci as int);
                    }
                }
            }
            ci = ci + 1;
        }
        let ghost c0 = self.watchers@;
        let total = self.watchers.len();
        let mut keep: Vec<TrackedWatcher> = Vec::new();
        let mut stopped: Vec<TrackedWatcher> = Vec::new();
        let mut w: usize = 0;
        while w < total
            invariant
                0 <= w <= total == c0.len(),
                self.wf(),
                self.watchers@ == c0,
                forall|p: int|
                    0 <= p < stopped@.len() ==> old(self).watched((#[trigger] stopped@[p]).id@)
                        && !matching_id(containers@, images@, stopped@[p].id@),

                forall|id: Seq<char>| #[trigger]
                    has_id(keep@, id) <==> (exists|j: int|
                        0 <= j < w && #[trigger] c0[j].id@ == id && matching_id(
                            containers@,
                            images@,
                            id,
                        )),
                forall|id: Seq<char>| #[trigger]
                    has_id(stopped@, id) <==> (exists|j: int|
                        0 <= j < w && #[trigger] c0[j].id@ == id && !matching_id(
                            containers@,
                            images@,
                            id,
                        )),
                forall|p: int, q: int|
                    0 <= p < q < keep@.len() ==> #[trigger] keep@[p].id@ != #[trigger] keep@[q].id@,
                forall|p: int, q: int|
                    0 <= p < q < stopped@.len() ==> #[trigger] stopped@[p].id@
                        != #[trigger] stopped@[q].id@,
            decreases total - w,
        {
            let e = clone_watcher(&self.watchers[w]);
            let ghost ge = e;
            assert(ge == c0[w as int]);
            if any_matching(containers, images, &e.id) {
                let ghost k_old = keep@;
                proof {
                    assert forall|p: int| 0 <= p < k_old.len() implies #[trigger] k_old[p].id@
                        != ge.id@ by {
                        assert(has_id(k_old, k_old[p].id@));
                        let j = choose|j: int|
                            0 <= j < w && #[trigger] c0[j].id@ == k_old[p].id@ && matching_id(
                                containers@,
                                images@,
                                k_old[p].id@,
                            );
                        assert(c0[j].id@ != c0[w as int].id@);
                    }
                }
                keep.push(e);
                proof {
                    assert(keep@ == k_old.push(ge));
                    assert forall|id: Seq<char>| #[trigger]
                        has_id(keep@, id) <==> (exists|j: int|
                            0 <= j < w + 1 && #[trigger] c0[j].id@ == id && matching_id(
                                containers@,
                                images@,
                                id,
                            )) by {
                        lemma_has_id_push(k_old, ge, id);
                        if id == ge.id@ {
                            assert(c0[w as int].id@ == id && matching_id(containers@, images@, id));
                        } else {
                            if exists|j: int|
                                0 <= j < w + 1 && #[trigger] c0[j].id@ == id && matching_id(
                                    containers@,
                                    images@,
                                    id,
                                ) {
                                let j = choose|j: int|
                                    0 <= j < w + 1 && #[trigger] c0[j].id@ == id && matching_id(
                                        containers@,
                                        images@,
                                        id,
                                    );
                                assert(j != w);
                                assert(0 <= j < w && c0[j].id@ == id && matching_id(
                                    containers@,
                                    images@,
                                    id,
                                ));
                            }
                        }
                    }
                    assert forall|id: Seq<char>| #[trigger]
                        has_id(stopped@, id) <==> (exists|j: int|
                            0 <= j < w + 1 && #[trigger] c0[j].id@ == id && !matching_id(
                                containers@,
                                images@,
                                id,
                            )) by {
                        if exists|j: int|
                            0 <= j < w + 1 && #[trigger] c0[j].id@ == id && !matching_id(
                                containers@,
                                images@,
                                id,
                            ) {
                            let j = choose|j: int|
                                0 <= j < w + 1 && #[trigger] c0[j].id@ == id && !matching_id(
                                    containers@,
                                    images@,
                                    id,
                                );
                            assert(j != w);
                        }
                    }
                }
            } else {
                let ghost st_old = stopped@;
                proof {
                    assert forall|p: int| 0 <= p < st_old.len() implies #[trigger] st_old[p].id@
                        != ge.id@ by {
                        assert(has_id(st_old, st_old[p].id@));
                        let j = choose|j: int|
                            0 <= j < w && #[trigger] c0[j].id@ == st_old[p].id@ && !matching_id(
                                containers@,
                                images@,
                                st_old[p].id@,
                            );
                        assert(c0[j].id@ != c0[w as int].id@);
                    }
                }
                stopped.push(e);
                proof {
                    assert(stopped@ == st_old.push(ge));
                    assert forall|id: Seq<char>| #[trigger]
                        has_id(stopped@, id) <==> (exists|j: int|
                            0 <= j < w + 1 && #[trigger] c0[j].id@ == id && !matching_id(
                                containers@,
                                images@,
                                id,
                            )) by {
                        lemma_has_id_push(st_old, ge, id);
                        if id == ge.id@ {
                            assert(c0[w as int].id@ == id && !matching_id(
                                containers@,
                                images@,
                                id,
                            ));
                        } else {
                            if exists|j: int|
                                0 <= j < w + 1 && #[trigger] c0[j].id@ == id && !matching_id(
                                    containers@,
                                    images@,
                                    id,
                                ) {
                                let j = choose|j: int|
                                    0 <= j < w + 1 && #[trigger] c0[j].id@ == id && !matching_id(
                                        containers@,
                                        images@,
                                        id,
                                    );
                                assert(j != w);
                            }
                        }
                    }
                    assert forall|id: Seq<char>| #[trigger]
                        has_id(keep@, id) <==> (exists|j: int|
                            0 <= j < w + 1 && #[trigger] c0[j].id@ == id && matching_id(
                                containers@,
                                images@,
                                id,
                            )) by {
                        if exists|j: int|
                            0 <= j < w + 1 && #[trigger] c0[j].id@ == id && matching_id(
                                containers@,
                                images@,
                                id,
                            ) {
                            let j = choose|j: int|
                                0 <= j < w + 1 && #[trigger] c0[j].id@ == id && matching_id(
                                    containers@,
                                    images@,
                                    id,
                                );
                            assert(j != w);
                        }
                    }
                    // the entry just stopped was watched before the poll:
                    // it stands in the combined set and does not match, so
                    // it cannot stem from this poll's additions
                    assert(c0[w as int].id@ == ge.id@);
                    assert(has_id(c0, ge.id@));
                    assert(!matching_prefix(containers@, images@, ge.id@, nc as int));
                    assert(old(self).watched(ge.id@));
                    assert forall|p: int| 0 <= p < stopped@.len() implies old(self).watched(
                        (#[trigger] stopped@[p]).id@,
                    ) && !matching_id(containers@, images@, stopped@[p].id@) by {
                        if p < st_old.len() {
                            assert(stopped@[p] == st_old[p]);
                        } else {
                            assert(stopped@[p] == ge);
                        }
                    }
                }
            }
            w = w + 1;
        }
        let ghost kfin = keep@;
        proof {
            // a matching identity is watched after the first pass, so it
            // stands in the combined set and hence in `keep`
            assert forall|id: Seq<char>|
                matching_id(containers@, images@, id) implies has_id(kfin, id) by {
                assert(matching_prefix(containers@, images@, id, nc as int));
                assert(self.watched(id));
                let j = choose|j: int| 0 <= j < c0.len() && #[trigger] c0[j].id@ == id;
                assert(0 <= j < total && c0[j].id@ == id && matching_id(containers@, images@, id));
            }
            // an identity started by this poll was not watched before
            assert forall|id: Seq<char>|
                matching_id(containers@, images@, id) && !old(self).watched(id) implies
                #[trigger] has_id(started@, id) by {
                assert(self.watched(id));
                let j = choose|j: int| 0 <= j < c0.len() && #[trigger] c0[j].id@ == id;
                if j < w0.len() {
                    assert(c0[j] == w0[j]);
                    assert(w0[j].id@ == id);
                    assert(old(self).watched(id));
                } else {
                    assert(c0[j] == started@[j - w0.len()]);
                    assert(started@[j - w0.len()].id@ == id);
                }
            }
            // every identity dropped by the poll stands in `stopped`
            assert forall|id: Seq<char>|
                old(self).watched(id) && !matching_id(containers@, images@, id) implies
                #[trigger] has_id(stopped@, id) by {
                let j = choose|j: int| 0 <= j < w0.len() && #[trigger] w0[j].id@ == id;
                assert(c0[j] == w0[j]);
                assert(0 <= j < total && c0[j].id@ == id && !matching_id(containers@, images@, id));
                assert(has_id(stopped@, id));
            }
        }
        core::mem::swap(&mut self.watchers, &mut keep);
        proof {
            assert(self.watchers@ == kfin);
            assert forall|id: Seq<char>| #[trigger]
                self.watched(id) <==> matching_id(containers@, images@, id) by {
                if self.watched(id) {
                    assert(has_id(kfin, id));
                    let p = choose|p: int| 0 <= p < kfin.len() && #[trigger] kfin[p].id@ == id;
                    let j = choose|j: int|
                        0 <= j < total && #[trigger] c0[j].id@ == id && matching_id(
                            containers@,
                            images@,
                            id,
                        );
                }
            }
        }
        PollPlan { started, stopped }
    }

    /// One reconciler turn over the outcome of a discovery poll, paired
    /// with the delay until the next poll. A successful poll reconciles
    /// the watched set against the fresh list exactly as `apply_poll`
    /// does and schedules the normal delay; a failed poll leaves the
    /// watched set untouched, plans nothing, and shortens the delay.
    pub fn poll_step(
        &mut self,
        discovered: &Option<Vec<ContainerInfo>>,
        images: &Vec<String>,
    ) -> (r: (PollPlan, u64))
        requires
            old(self).wf(),
        ensures
            final(self).wf(),
            r.1 == (if *discovered is Some {
                POLL_DELAY_OK_SECS as int
            } else {
                POLL_DELAY_ERR_SECS as int
            }),
            *discovered is None ==> *final(self) == *old(self) && r.0.started@.len() == 0
                && r.0.stopped@.len() == 0,
            *discovered is Some ==> {
                let cs = ((*discovered)->0)@;
                &&& forall|id: Seq<char>| #[trigger]
                    final(self).watched(id) <==> matching_id(cs, images@, id)
                &&& forall|p: int|
                    0 <= p < r.0.started@.len() ==> !old(self).watched(
                        (#[trigger] r.0.started@[p]).id@,
                    )
                &&& forall|p: int|
                    0 <= p < r.0.started@.len() ==> started_entry_ok(
                        cs,
                        images@,
                        #[trigger] r.0.started@[p],
                    )
                &&& forall|id: Seq<char>|
                    matching_id(cs, images@, id) && !old(self).watched(id)
                        ==> #[trigger] has_id(r.0.started@, id)
                &&& forall|p: int|
                    0 <= p < r.0.stopped@.len() ==> old(self).watched(
                        (#[trigger] r.0.stopped@[p]).id@,
                    ) && !matching_id(cs, images@, r.0.stopped@[p].id@)
                &&& forall|id: Seq<char>|
                    old(self).watched(id) && !matching_id(cs, images@, id)
                        ==> #[trigger] has_id(r.0.stopped@, id)
                &&& forall|p: int, q: int|
                    0 <= p < q < r.0.started@.len() ==> (#[trigger] r.0.started@[p]).id@ != (
                    #[trigger] r.0.started@[q]).id@
                &&& forall|p: int, q: int|
                    0 <= p < q < r.0.stopped@.len() ==> (#[trigger] r.0.stopped@[p]).id@ != (
                    #[trigger] r.0.stopped@[q]).id@
            },
    {
        match discovered {
            Some(containers) => {
                let plan = self.apply_poll(containers, images);
                (plan, poll_delay_secs(true))
            },
            None => {
                let plan = PollPlan { started: Vec::new(), stopped: Vec::new() };
                (plan, poll_delay_secs(false))
            },
        }
    }

    /// Stop every watcher: the reconciler's shutdown path.
    pub fn drain(&mut self) -> (stopped: Vec<TrackedWatcher>)
        ensures
            final(self).wf(),
            forall|id: Seq<char>| !final(self).watched(id),
            stopped@ == old(self).watchers@,
    {
        let mut out: Vec<TrackedWatcher> = Vec::new();
        core::mem::swap(&mut out, &mut self.watchers);
        out
    }
}

proof fn lemma_has_id_push(s: Seq<TrackedWatcher>, e: TrackedWatcher, id: Seq<char>)
    ensures
        has_id(s.push(e), id) <==> (has_id(s, id) || e.id@ == id),
{
    if has_id(s.push(e), id) {
        let j = choose|j: int| 0 <= j < s.push(e).len() && #[trigger] s.push(e)[j].id@ == id;
        if j < s.len() {
            assert(s[j].id@ == id);
        }
    }
    if has_id(s, id) {
        let j = choose|j: int| 0 <= j < s.len() && #[trigger] s[j].id@ == id;
        assert(s.push(e)[j].id@ == id);
    }
    if e.id@ == id {
        assert(s.push(e)[s.len() as int].id@ == id);
    }
}

proof fn lemma_matching_prefix_step(
    cs: Seq<ContainerInfo>,
    images: Seq<String>,
    id: Seq<char>,
    n: int,
)
    requires
        0 <= n < cs.len(),
    ensures
        matching_prefix(cs, images, id, n + 1) <==> (matching_prefix(cs, images, id, n) || (
        cs[n].id@ == id && image_matches(images, cs[n].image@))),
{
    if matching_prefix(cs, images, id, n + 1) {
        let j = choose|j: int|
            0 <= j < n + 1 && #[trigger] cs[j].id@ == id && image_matches(images, cs[j].image@);
        if j < n {
            assert(matching_prefix(cs, images, id, n));
        }
    }
    if matching_prefix(cs, images, id, n) {
        let j = choose|j: int|
            0 <= j < n && #[trigger] cs[j].id@ == id && image_matches(images, cs[j].image@);
        assert(0 <= j < n + 1 && cs[j].id@ == id && image_matches(images, cs[j].image@));
    }
    if cs[n].id@ == id && image_matches(images, cs[n].image@) {
        assert(0 <= n < n + 1 && cs[n].id@ == id && image_matches(images, cs[n].image@));
    }
}

/// Copy a watcher entry.
fn clone_watcher(e: &TrackedWatcher) -> (r: TrackedWatcher)
    ensures
        r == *e,
{
    TrackedWatcher { id: e.id.clone(), name: e.name.clone() }
}

/// Whether the fresh container list holds a matching container with the
/// given identity.
#[verifier::loop_isolation(false)]
pub fn any_matching(containers: &Vec<ContainerInfo>, images: &Vec<String>, id: &String) -> (r: bool)
    ensures
        r == matching_id(containers@, images@, id@),
{
    let n = containers.len();
    let mut i: usize = 0;
    while i < n
        invariant
            0 <= i <= n == containers@.len(),
            !matching_prefix(containers@, images@, id@, i as int),
        decreases n - i,
    {
        let c = &containers[i];
        if c.id.eq(id) {
            if image_matches_exec(images, c.image.as_str()) {
                assert(matching_id(containers@, images@, id@));
                return true;
            }
        }
        proof {
            assert forall|j: int|
                0 <= j < i + 1 implies !(#[trigger] containers@[j].id@ == id@ && image_matches(
                images@,
                containers@[j].image@,
            )) by {}
        }
        i = i + 1;
    }
    false
}

/// The delay until the next discovery poll: a failed poll is retried
/// sooner.
pub fn poll_delay_secs(success: bool) -> (d: u64)
    ensures
        d == if success {
            POLL_DELAY_OK_SECS as int
        } else {
            POLL_DELAY_ERR_SECS as int
        },
{
    if success {
        POLL_DELAY_OK_SECS
    } else {
        POLL_DELAY_ERR_SECS
    }
}



/// The set of identities a watcher set watches.
pub open spec fn watched_ids(s: WatcherSet) -> Set<Seq<char>> {
    Set::new(|id: Seq<char>| s.watched(id))
}

/// A run of the reconciler over successful polls: `states[0]` is the
/// watched-identity set at the start, and each later `states[k]` is
/// constrained to what `apply_poll`'s contract pins after poll `k - 1` —
/// which mentions that poll alone. The `watched_ids` values of a set
/// driven by `apply_poll` form such a run.
pub open spec fn is_poll_run(
    states: Seq<Set<Seq<char>>>,
    polls: Seq<Seq<ContainerInfo>>,
    images: Seq<String>,
) -> bool {
    &&& states.len() == polls.len() + 1
    &&& forall|k: int, id: Seq<char>|
        1 <= k <= polls.len() ==> ((#[trigger] states[k].contains(id)) <==> matching_id(
            polls[k - 1],
            images,
            id,
        ))
}

/// Law (eventual consistency): in every run of successful polls, the final
/// watched set equals the matching set of the most recent poll — the
/// starting set and all earlier polls play no part.
pub proof fn lemma_watched_tracks_latest_poll(
    states: Seq<Set<Seq<char>>>,
    polls: Seq<Seq<ContainerInfo>>,
    images: Seq<String>,
    id: Seq<char>,
)
    requires
        is_poll_run(states, polls, images),
        polls.len() > 0,
    ensures
        states.last().contains(id) <==> matching_id(polls.last(), images, id),
{
    assert(states[polls.len() as int].contains(id) <==> matching_id(
        polls[polls.len() - 1],
        images,
        id,
    ));
}

/// Law (no duplicate watchers): in a well-formed watcher set two entries
/// with the same container identity are the same entry.
pub proof fn lemma_no_duplicate_watchers(s: WatcherSet, i: int, j: int)
    requires
        s.wf(),
        0 <= i < s.watchers@.len(),
        0 <= j < s.watchers@.len(),
        s.watchers@[i].id@ == s.watchers@[j].id@,
    ensures
        i == j,
{
}

} // verus!
