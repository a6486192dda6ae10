//! Background download jobs: the records the web UI polls, and the store
//! that registers, caps, retries, cancels and removes them.
//!
//! Speeds and progress percentages are floating-point values in the UI; the
//! store carries them as the bit patterns of `f64` values and sets them only
//! to zero or to one hundred percent.

use vstd::prelude::*;
use crate::text::{
    to_chars, string_from_chars, chars_eq, dec, dec_chars, push_all,
};
use crate::urls::{opt_view, JobKind, job_kind_of, job_kind_for_url, download_extension, infer_download_extension, UrlFields};
use crate::ssrf::{check_ssrf_url, ssrf_verdict};

verus! {

/// Stored jobs beyond which the oldest finished ones are dropped.
pub const MAX_JOBS: usize = 20;

/// The bit pattern of the `f64` value `0.0`.
pub const F64_ZERO_BITS: u64 = 0;

/// The bit pattern of the `f64` value `100.0`.
pub const F64_HUNDRED_BITS: u64 = 0x4059000000000000;

/// Where a job is in its life.
#[derive(Clone, Copy, Debug, PartialEq, Eq, Structural)]
pub enum JobStatus {
    Queued,
    Downloading,
    Merging,
    Completed,
    Failed,
    Cancelled,
}

/// One download job as the UI sees it.
pub struct DlJob {
    pub id: String,
    pub filename: String,
    pub kind: JobKind,
    pub status: JobStatus,
    pub downloaded: u64,
    pub total: Option<u64>,
    /// The `f64` bytes-per-second rate, as bits.
    pub speed_bps_bits: u64,
    pub eta_secs: Option<u64>,
    /// The `f64` overall progress (0 to 100), as bits.
    pub progress_bits: u64,
    pub error: Option<String>,
    pub url: String,
    pub headers: Vec<(String, String)>,
    /// Set when the user asked the worker to stop.
    pub cancel_requested: bool,
    pub quality: Option<u16>,
}

/// A job by the values of its fields.
pub struct JobView {
    pub id: Seq<char>,
    pub filename: Seq<char>,
    pub kind: JobKind,
    pub status: JobStatus,
    pub downloaded: u64,
    pub total: Option<u64>,
    pub speed_bps_bits: u64,
    pub eta_secs: Option<u64>,
    pub progress_bits: u64,
    pub error: Option<Seq<char>>,
    pub url: Seq<char>,
    pub headers: Seq<(Seq<char>, Seq<char>)>,
    pub cancel_requested: bool,
    pub quality: Option<u16>,
}

pub open spec fn headers_view(h: Seq<(String, String)>) -> Seq<(Seq<char>, Seq<char>)> {
    h.map_values(|p: (String, String)| (p.0@, p.1@))
}

impl View for DlJob {
    type V = JobView;

    open spec fn view(&self) -> JobView {
        JobView {
            id: self.id@,
            filename: self.filename@,
            kind: self.kind,
            status: self.status,
            downloaded: self.downloaded,
            total: self.total,
            speed_bps_bits: self.speed_bps_bits,
            eta_secs: self.eta_secs,
            progress_bits: self.progress_bits,
            error: opt_view(self.error),
            url: self.url@,
            headers: headers_view(self.headers@),
            cancel_requested: self.cancel_requested,
            quality: self.quality,
        }
    }
}

/// Completed, failed and cancelled jobs are finished.
pub open spec fn is_terminal_status(s: JobStatus) -> bool {
    s is Completed || s is Failed || s is Cancelled
}

/// A freshly registered job: queued, nothing downloaded yet.
pub open spec fn new_job_view(
    id: Seq<char>,
    filename: Seq<char>,
    kind: JobKind,
    url: Seq<char>,
    headers: Seq<(Seq<char>, Seq<char>)>,
    quality: Option<u16>,
) -> JobView {
    JobView {
        id,
        filename,
        kind,
        status: JobStatus::Queued,
        downloaded: 0,
        total: None,
        speed_bps_bits: F64_ZERO_BITS,
        eta_secs: None,
        progress_bits: F64_ZERO_BITS,
        error: None,
        url,
        headers,
        cancel_requested: false,
        quality,
    }
}

/// A copy of the request headers.
pub fn copy_headers(h: &Vec<(String, String)>) -> (r: Vec<(String, String)>)
    ensures
        headers_view(r@) == headers_view(h@),
{
    let mut r: Vec<(String, String)> = Vec::new();
    let mut i: usize = 0;
    while i < h.len()
        invariant
            i <= h.len(),
            headers_view(r@) == headers_view(h@.take(i as int)),
        decreases h.len() - i,
    {
        let k = h[i].0.clone();
        let v = h[i].1.clone();
        let ghost before = headers_view(r@);
        assert(k@ == h@[i as int].0@ && v@ == h@[i as int].1@);
        r.push((k, v));
        assert(headers_view(r@) =~= before.push((h@[i as int].0@, h@[i as int].1@)));
        assert(h@.take(i + 1) =~= h@.take(i as int).push(h@[i as int]));
        i = i + 1;
        assert(headers_view(r@) =~= headers_view(h@.take(i as int)));
    }
    assert(h@.take(h.len() as int) =~= h@);
    r
}

fn copy_opt_string(o: &Option<String>) -> (r: Option<String>)
    ensures
        opt_view(r) == opt_view(*o),
{
    match o {
        Some(s) => Some(s.clone()),
        None => None,
    }
}

impl DlJob {
    /// A queued job with nothing downloaded yet.
    pub fn new(
        id: String,
        filename: String,
        kind: JobKind,
        url: String,
        headers: Vec<(String, String)>,
        quality: Option<u16>,
    ) -> (j: DlJob)
        ensures
            j@ == new_job_view(id@, filename@, kind, url@, headers_view(headers@), quality),
    {
        DlJob {
            id,
            filename,
            kind,
            status: JobStatus::Queued,
            downloaded: 0,
            total: None,
            speed_bps_bits: F64_ZERO_BITS,
            eta_secs: None,
            progress_bits: F64_ZERO_BITS,
            error: None,
            url,
            headers,
            cancel_requested: false,
            quality,
        }
    }

    /// Whether the job has finished, one way or another.
    pub fn is_terminal(&self) -> (r: bool)
        ensures
            r == is_terminal_status(self.status),
    {
        match self.status {
            JobStatus::Completed | JobStatus::Failed | JobStatus::Cancelled => true,
            _ => false,
        }
    }

    /// A copy of the job.
    pub fn snapshot(&self) -> (r: DlJob)
        ensures
            r@ == self@,
    {
        DlJob {
            id: self.id.clone(),
            filename: self.filename.clone(),
            kind: self.kind,
            status: self.status,
            downloaded: self.downloaded,
            total: self.total,
            speed_bps_bits: self.speed_bps_bits,
            eta_secs: self.eta_secs,
            progress_bits: self.progress_bits,
            error: copy_opt_string(&self.error),
            url: self.url.clone(),
            headers: copy_headers(&self.headers),
            cancel_requested: self.cancel_requested,
            quality: self.quality,
        }
    }
}

// ------------------------------------------------------------------ the store

/// The registered jobs, keyed by id.
pub open spec fn job_map(s: Seq<DlJob>) -> Map<Seq<char>, JobView> {
    Map::new(
        |id: Seq<char>| exists|i: int| 0 <= i < s.len() && s[i].id@ == id,
        |id: Seq<char>| s[choose|i: int| 0 <= i < s.len() && s[i].id@ == id]@,
    )
}

pub open spec fn distinct_ids(s: Seq<DlJob>) -> bool {
    forall|i: int, j: int| 0 <= i < s.len() && 0 <= j < s.len() && i != j ==> s[i].id@ != s[j].id@
}

/// The ids in `order` without any occurrence of `id`.
pub open spec fn without(order: Seq<Seq<char>>, id: Seq<char>) -> Seq<Seq<char>>
    decreases order.len(),
{
    if order.len() == 0 {
        order
    } else if order.last() == id {
        without(order.drop_last(), id)
    } else {
        without(order.drop_last(), id).push(order.last())
    }
}

/// The jobs the UI lists: those registered, in the order of `order`.
pub open spec fn listed(order: Seq<Seq<char>>, m: Map<Seq<char>, JobView>) -> Seq<JobView>
    decreases order.len(),
{
    if order.len() == 0 {
        Seq::empty()
    } else if m.contains_key(order.last()) {
        listed(order.drop_last(), m).push(m[order.last()])
    } else {
        listed(order.drop_last(), m)
    }
}

/// The cap on stored jobs, applied after a registration: while more than
/// `MAX_JOBS` ids are queued (and at most `MAX_JOBS + 4` times), the oldest
/// id is taken off; a job still running goes back to the end and stops the
/// pass; a finished or unknown one is dropped, and a dropped job is reported.
pub open spec fn evict(
    order: Seq<Seq<char>>,
    m: Map<Seq<char>, JobView>,
    guard: nat,
    dropped: Seq<JobView>,
) -> (Seq<Seq<char>>, Map<Seq<char>, JobView>, Seq<JobView>)
    decreases MAX_JOBS + 4 - guard,
{
    if order.len() > MAX_JOBS && guard < MAX_JOBS + 4 {
        let old_id = order[0];
        let rest = order.drop_first();
        if m.contains_key(old_id) && !is_terminal_status(m[old_id].status) {
            (rest.push(old_id), m, dropped)
        } else if m.contains_key(old_id) {
            evict(rest, m.remove(old_id), guard + 1, dropped.push(m[old_id]))
        } else {
            evict(rest, m, guard + 1, dropped)
        }
    } else {
        (order, m, dropped)
    }
}

/// `dl_<millis>_<seq mod 10000>`.
pub open spec fn job_id_spec(millis: nat, seq: nat) -> Seq<char> {
    "dl_"@ + dec(millis) + "_"@ + dec(seq % 10000)
}

/// The file name of a new job: the stem and the extension its kind implies.
pub open spec fn job_filename(stem: Seq<char>, u: UrlFields) -> Seq<char> {
    let ext = match job_kind_of(u.0) {
        JobKind::File => download_extension(u.0, None),
        _ => "mp4"@,
    };
    stem + "."@ + ext
}

/// A job back in the queue for another attempt.
pub open spec fn reset_view(j: JobView) -> JobView {
    JobView {
        status: JobStatus::Queued,
        downloaded: 0,
        total: None,
        speed_bps_bits: F64_ZERO_BITS,
        eta_secs: None,
        progress_bits: F64_ZERO_BITS,
        error: None,
        cancel_requested: false,
        ..j
    }
}

/// What a registration hands back: the new job, and the finished jobs that
/// the cap dropped (whose files the caller deletes).
pub struct StartOutcome {
    pub job: DlJob,
    pub evicted: Vec<DlJob>,
}

/// The download jobs of the server, most recent last.
pub struct DlStore {
    jobs: Vec<DlJob>,
    order: Vec<String>,
    dir: String,
}

pub open spec fn jobs_seq_view(s: Seq<DlJob>) -> Seq<JobView> {
    s.map_values(|j: DlJob| j@)
}

impl DlStore {
    /// The registered jobs by id.
    pub closed spec fn jobs(&self) -> Map<Seq<char>, JobView> {
        job_map(self.jobs@)
    }

    /// The ids in listing order.
    pub closed spec fn order(&self) -> Seq<Seq<char>> {
        self.order@.map_values(|s: String| s@)
    }

    /// The directory the job files go to.
    pub closed spec fn dir_view(&self) -> Seq<char> {
        self.dir@
    }

    /// Every id is registered once.
    pub closed spec fn wf(&self) -> bool {
        distinct_ids(self.jobs@)
    }

    /// The listing and the stored jobs agree (see `in_sync`).
    pub open spec fn synced(&self) -> bool {
        in_sync(self.order(), self.jobs())
    }

    /// An empty store writing to `dir`.
    pub fn new(dir: String) -> (s: DlStore)
        ensures
            s.wf(),
            s.synced(),
            s.jobs() == Map::<Seq<char>, JobView>::empty(),
            s.order() == Seq::<Seq<char>>::empty(),
            s.dir_view() == dir@,
    {
        let s = DlStore { jobs: Vec::new(), order: Vec::new(), dir };
        assert(s.jobs() =~= Map::<Seq<char>, JobView>::empty());
        assert(s.order() =~= Seq::<Seq<char>>::empty());
        s
    }

    /// The directory the job files go to.
    pub fn dir(&self) -> (r: &str)
        ensures
            r@ == self.dir_view(),
    {
        self.dir.as_str()
    }

    proof fn lemma_job_at(&self, i: int)
        requires
            self.wf(),
            0 <= i < self.jobs@.len(),
        ensures
            self.jobs().contains_key(self.jobs@[i].id@),
            self.jobs()[self.jobs@[i].id@] == self.jobs@[i]@,
    {
        let id = self.jobs@[i].id@;
        assert(exists|k: int| 0 <= k < self.jobs@.len() && self.jobs@[k].id@ == id);
        let k = choose|k: int| 0 <= k < self.jobs@.len() && self.jobs@[k].id@ == id;
        assert(k == i);
    }

    fn find_index(&self, id: &[char]) -> (r: Option<usize>)
        requires
            self.wf(),
        ensures
            r matches Some(i) ==> i < self.jobs@.len() && self.jobs@[i as int].id@ == id@
                && self.jobs().contains_key(id@) && self.jobs()[id@] == self.jobs@[i as int]@,
            r is None ==> !self.jobs().contains_key(id@),
    {
        let mut i: usize = 0;
        while i < self.jobs.len()
            invariant
                self.wf(),
                i <= self.jobs@.len(),
                forall|k: int| 0 <= k < i ==> self.jobs@[k].id@ != id@,
            decreases self.jobs@.len() - i,
        {
            let jid = to_chars(self.jobs[i].id.as_str());
            if chars_eq(&jid, id) {
                proof {
                    self.lemma_job_at(i as int);
                }
                return Some(i);
            }
            i = i + 1;
        }
        None
    }

    /// The job with id `id`, if registered.
    pub fn get(&self, id: &str) -> (r: Option<DlJob>)
        requires
            self.wf(),
        ensures
            r matches Some(j) ==> self.jobs().contains_key(id@) && j@ == self.jobs()[id@],
            r is None ==> !self.jobs().contains_key(id@),
    {
        match self.find_index(&to_chars(id)) {
            Some(i) => Some(self.jobs[i].snapshot()),
            None => None,
        }
    }

    /// All registered jobs, in listing order.
    pub fn list(&self) -> (r: Vec<DlJob>)
        requires
            self.wf(),
        ensures
            jobs_seq_view(r@) == listed(self.order(), self.jobs()),
    {
        let mut r: Vec<DlJob> = Vec::new();
        let mut i: usize = 0;
        while i < self.order.len()
            invariant
                self.wf(),
                i <= self.order@.len(),
                jobs_seq_view(r@) == listed(self.order().take(i as int), self.jobs()),
            decreases self.order@.len() - i,
        {
            assert(self.order().take(i + 1).drop_last() =~= self.order().take(i as int));
            assert(self.order()[i as int] == self.order@[i as int]@);
            let ghost before = jobs_seq_view(r@);
            match self.get(self.order[i].as_str()) {
                Some(j) => {
                    let ghost jv = j@;
                    r.push(j);
                    assert(jobs_seq_view(r@) =~= before.push(jv));
                },
                None => {},
            }
            i = i + 1;
        }
        assert(self.order().take(self.order@.len() as int) =~= self.order());
        r
    }

    /// Registers `id` at the end of the listing and `job` under it, replacing
    /// any job with the same id.
    fn insert_job(&mut self, job: DlJob)
        requires
            old(self).wf(),
        ensures
            final(self).wf(),
            final(self).jobs() == old(self).jobs().insert(job.id@, job@),
            final(self).order() == old(self).order().push(job.id@),
            final(self).dir_view() == old(self).dir_view(),
    {
        let idc = to_chars(job.id.as_str());
        let ghost old_order = self.order();
        self.order.push(job.id.clone());
        assert(self.order() =~= old_order.push(job.id@));
        match self.find_index(&idc) {
            Some(i) => {
                proof {
                    lemma_map_set(self.jobs@, i as int, job);
                }
                self.jobs.set(i, job);
            },
            None => {
                proof {
                    lemma_map_push(self.jobs@, job);
                }
                self.jobs.push(job);
            },
        }
    }

    /// Applies the cap on stored jobs after a registration.
    fn evict_finished(&mut self) -> (dropped: Vec<DlJob>)
        requires
            old(self).wf(),
        ensures
            final(self).wf(),
            (final(self).order(), final(self).jobs(), jobs_seq_view(dropped@)) == evict(
                old(self).order(),
                old(self).jobs(),
                0,
                Seq::empty(),
            ),
            final(self).dir_view() == old(self).dir_view(),
    {
        let ghost target = evict(self.order(), self.jobs(), 0, Seq::empty());
        let ghost dir0 = self.dir@;
        let mut dropped: Vec<DlJob> = Vec::new();
        let mut guard: usize = 0;
        let mut stop = false;
        assert(jobs_seq_view(dropped@) =~= Seq::<JobView>::empty());
        while !stop && self.order.len() > MAX_JOBS && guard < MAX_JOBS + 4
            invariant
                self.wf(),
                guard <= MAX_JOBS + 4,
                self.dir@ == dir0,
                !stop ==> evict(self.order(), self.jobs(), guard as nat, jobs_seq_view(dropped@))
                    == target,
                stop ==> (self.order(), self.jobs(), jobs_seq_view(dropped@)) == target,
            decreases MAX_JOBS + 4 - guard,
        {
            let ghost o = self.order();
            let ghost m = self.jobs();
            let ghost d = jobs_seq_view(dropped@);
            let old_id = self.order.remove(0);
            assert(self.order() =~= o.drop_first());
            assert(old_id@ == o[0]);
            guard = guard + 1;
            let idc = to_chars(old_id.as_str());
            match self.find_index(&idc) {
                Some(i) => {
                    if !self.jobs[i].is_terminal() {
                        self.order.push(old_id);
                        assert(self.order() =~= o.drop_first().push(o[0]));
                        stop = true;
                    } else {
                        proof {
                            lemma_map_remove(self.jobs@, i as int);
                        }
                        let old = self.jobs.remove(i);
                        assert(old@ == m[o[0]]);
                        dropped.push(old);
                        assert(jobs_seq_view(dropped@) =~= d.push(m[o[0]]));
                    }
                },
                None => {},
            }
        }
        dropped
    }

    /// Validates a download request and registers its job: the URL must pass
    /// the request-forgery guard; the job gets the id `dl_<millis>_<seq mod
    /// 10000>`, the file name `<stem>.<extension>`, and the kind its URL
    /// implies. Then the cap on stored jobs applies.
    pub fn start(
        &mut self,
        url: &str,
        headers: Vec<(String, String)>,
        stem: &str,
        quality: Option<u16>,
        millis: u128,
        seq: u64,
    ) -> (r: Result<StartOutcome, (u16, String)>)
        requires
            old(self).wf(),
        ensures
            final(self).wf(),
            final(self).dir_view() == old(self).dir_view(),
            match ssrf_verdict(url@) {
                Err((code, msg)) => r matches Err((c, m)) && c == code && m@ == msg
                    && final(self).jobs() == old(self).jobs() && final(self).order() == old(
                    self,
                ).order(),
                Ok(u) => r matches Ok(out) && out.job@ == new_job_view(
                    job_id_spec(millis as nat, seq as nat),
                    job_filename(stem@, u),
                    job_kind_of(u.0),
                    url@,
                    headers_view(headers@),
                    quality,
                ) && (final(self).order(), final(self).jobs(), jobs_seq_view(out.evicted@))
                    == evict(
                    old(self).order().push(out.job@.id),
                    old(self).jobs().insert(out.job@.id, out.job@),
                    0,
                    Seq::empty(),
                ),
            },
            old(self).synced() && !old(self).jobs().contains_key(job_id_spec(millis as nat, seq as nat))
                ==> final(self).synced(),
    {
        let parsed = match check_ssrf_url(url) {
            Ok(u) => u,
            Err(e) => {
                return Err(e);
            },
        };
        let kind = job_kind_for_url(parsed.as_str());
        let ext: &str = match kind {
            JobKind::File => infer_download_extension(parsed.as_str(), None),
            _ => "mp4",
        };
        let mut idv = to_chars("dl_");
        push_all(&mut idv, &dec_chars(millis));
        push_all(&mut idv, &to_chars("_"));
        push_all(&mut idv, &dec_chars((seq % 10000) as u128));
        let id = string_from_chars(&idv);
        let mut namev = to_chars(stem);
        push_all(&mut namev, &to_chars("."));
        push_all(&mut namev, &to_chars(ext));
        let filename = string_from_chars(&namev);
        let job = DlJob::new(id, filename, kind, String::from_str(url), headers, quality);
        let snapshot = job.snapshot();
        proof {
            if self.synced() && !self.jobs().contains_key(job@.id) {
                lemma_sync_register(self.order(), self.jobs(), job@.id, job@);
                lemma_sync_evict(self.order().push(job@.id), self.jobs().insert(job@.id, job@), 0, Seq::empty());
            }
        }
        self.insert_job(job);
        let evicted = self.evict_finished();
        Ok(StartOutcome { job: snapshot, evicted })
    }

    /// Every occurrence of `id` taken out of the listing.
    fn drop_from_order(&mut self, id: &[char])
        ensures
            final(self).order() == without(old(self).order(), id@),
            final(self).jobs@ == old(self).jobs@,
            final(self).dir@ == old(self).dir@,
    {
        let ghost o = self.order();
        let mut kept: Vec<String> = Vec::new();
        let mut i: usize = 0;
        while i < self.order.len()
            invariant
                i <= self.order@.len(),
                o == self.order(),
                kept@.map_values(|s: String| s@) == without(o.take(i as int), id@),
            decreases self.order@.len() - i,
        {
            assert(o.take(i + 1).drop_last() =~= o.take(i as int));
            assert(o[i as int] == self.order@[i as int]@);
            let x = to_chars(self.order[i].as_str());
            if !chars_eq(&x, id) {
                let ghost before = kept@.map_values(|s: String| s@);
                kept.push(self.order[i].clone());
                assert(kept@.map_values(|s: String| s@) =~= before.push(o[i as int]));
            }
            i = i + 1;
        }
        assert(o.take(o.len() as int) =~= o);
        self.order = kept;
    }

    /// Puts a finished job back in the queue for another attempt (same URL
    /// and headers) and moves it to the end of the listing. A job still
    /// running is returned unchanged; an unknown id gives `None`. The flag in
    /// the result says whether a new attempt was set up, so that the caller
    /// deletes stale files and starts a worker.
    pub fn retry(&mut self, id: &str) -> (r: Option<(DlJob, bool)>)
        requires
            old(self).wf(),
        ensures
            final(self).wf(),
            final(self).dir_view() == old(self).dir_view(),
            !old(self).jobs().contains_key(id@) ==> r is None && final(self).jobs() == old(
                self,
            ).jobs() && final(self).order() == old(self).order(),
            old(self).jobs().contains_key(id@) && !is_terminal_status(
                old(self).jobs()[id@].status,
            ) ==> (r matches Some((j, restarted)) && !restarted && j@ == old(self).jobs()[id@]
                && final(self).jobs() == old(self).jobs() && final(self).order() == old(
                self,
            ).order()),
            old(self).jobs().contains_key(id@) && is_terminal_status(old(self).jobs()[id@].status)
                ==> (r matches Some((j, restarted)) && restarted && j@ == reset_view(
                old(self).jobs()[id@],
            ) && final(self).jobs() == old(self).jobs().insert(
                id@,
                reset_view(old(self).jobs()[id@]),
            ) && final(self).order() == without(old(self).order(), id@).push(id@)),
            old(self).synced() ==> final(self).synced(),
    {
        let idc = to_chars(id);
        let i = match self.find_index(&idc) {
            Some(i) => i,
            None => {
                return None;
            },
        };
        if !self.jobs[i].is_terminal() {
            return Some((self.jobs[i].snapshot(), false));
        }
        let mut job = self.jobs[i].snapshot();
        job.status = JobStatus::Queued;
        job.downloaded = 0;
        job.total = None;
        job.speed_bps_bits = F64_ZERO_BITS;
        job.eta_secs = None;
        job.progress_bits = F64_ZERO_BITS;
        job.error = None;
        job.cancel_requested = false;
        let result = job.snapshot();
        proof {
            if self.synced() {
                lemma_sync_move_last(self.order(), self.jobs(), id@, job@);
            }
            lemma_map_set(self.jobs@, i as int, job);
        }
        self.jobs.set(i, job);
        self.drop_from_order(&idc);
        let ghost o = self.order();
        self.order.push(String::from_str(id));
        assert(self.order() =~= o.push(id@));
        Some((result, true))
    }

    /// Flags a job for cancellation; `false` when no job has that id.
    pub fn cancel(&mut self, id: &str) -> (r: bool)
        requires
            old(self).wf(),
        ensures
            final(self).wf(),
            final(self).dir_view() == old(self).dir_view(),
            final(self).order() == old(self).order(),
            r == old(self).jobs().contains_key(id@),
            r ==> final(self).jobs() == old(self).jobs().insert(
                id@,
                JobView { cancel_requested: true, ..old(self).jobs()[id@] },
            ),
            !r ==> final(self).jobs() == old(self).jobs(),
            old(self).synced() ==> final(self).synced(),
    {
        match self.find_index(&to_chars(id)) {
            Some(i) => {
                let mut job = self.jobs[i].snapshot();
                job.cancel_requested = true;
                proof {
                    if self.synced() {
                        lemma_sync_update(self.order(), self.jobs(), id@, job@);
                    }
                    lemma_map_set(self.jobs@, i as int, job);
                }
                self.jobs.set(i, job);
                true
            },
            None => false,
        }
    }

    /// Takes a job out of the store and the listing; the removed job is
    /// returned so that the caller deletes its files.
    pub fn remove(&mut self, id: &str) -> (r: Option<DlJob>)
        requires
            old(self).wf(),
        ensures
            final(self).wf(),
            final(self).dir_view() == old(self).dir_view(),
            final(self).jobs() == old(self).jobs().remove(id@),
            final(self).order() == without(old(self).order(), id@),
            r matches Some(j) ==> old(self).jobs().contains_key(id@) && j@ == old(self).jobs()[id@],
            r is None ==> !old(self).jobs().contains_key(id@),
            old(self).synced() ==> final(self).synced(),
    {
        proof {
            if self.synced() {
                lemma_sync_remove(self.order(), self.jobs(), id@);
            }
        }
        let idc = to_chars(id);
        let removed = match self.find_index(&idc) {
            Some(i) => {
                proof {
                    lemma_map_remove(self.jobs@, i as int);
                }
                Some(self.jobs.remove(i))
            },
            None => {
                assert(self.jobs().remove(id@) =~= self.jobs());
                None
            },
        };
        self.drop_from_order(&idc);
        removed
    }

    /// Replaces the stored job that has the same id as `job` (a worker's
    /// update); `false` when no such job is registered any more.
    pub fn update(&mut self, job: DlJob) -> (r: bool)
        requires
            old(self).wf(),
        ensures
            final(self).wf(),
            final(self).dir_view() == old(self).dir_view(),
            final(self).order() == old(self).order(),
            r == old(self).jobs().contains_key(job@.id),
            r ==> final(self).jobs() == old(self).jobs().insert(job@.id, job@),
            !r ==> final(self).jobs() == old(self).jobs(),
            old(self).synced() ==> final(self).synced(),
    {
        match self.find_index(&to_chars(job.id.as_str())) {
            Some(i) => {
                proof {
                    if self.synced() {
                        lemma_sync_update(self.order(), self.jobs(), job@.id, job@);
                    }
                    lemma_map_set(self.jobs@, i as int, job);
                }
                self.jobs.set(i, job);
                true
            },
            None => false,
        }
    }

    /// Raises a job's byte count to `bytes` when that is more (the size of
    /// the file a helper program is writing); `false` when no job has that
    /// id.
    pub fn raise_downloaded(&mut self, id: &str, bytes: u64) -> (r: bool)
        requires
            old(self).wf(),
        ensures
            final(self).wf(),
            final(self).dir_view() == old(self).dir_view(),
            final(self).order() == old(self).order(),
            r == old(self).jobs().contains_key(id@),
            r ==> final(self).jobs() == old(self).jobs().insert(
                id@,
                JobView {
                    downloaded: if bytes > old(self).jobs()[id@].downloaded {
                        bytes
                    } else {
                        old(self).jobs()[id@].downloaded
                    },
                    ..old(self).jobs()[id@]
                },
            ),
            !r ==> final(self).jobs() == old(self).jobs(),
            old(self).synced() ==> final(self).synced(),
    {
        match self.find_index(&to_chars(id)) {
            Some(i) => {
                let mut job = self.jobs[i].snapshot();
                if bytes > job.downloaded {
                    job.downloaded = bytes;
                }
                proof {
                    if self.synced() {
                        lemma_sync_update(self.order(), self.jobs(), id@, job@);
                    }
                    lemma_map_set(self.jobs@, i as int, job);
                }
                self.jobs.set(i, job);
                true
            },
            None => false,
        }
    }

    /// Records how a worker ended: success completes a job not already
    /// finished, `"cancelled"` marks it cancelled, any other error marks it
    /// failed with that message. Returns whether the partial HLS file of a
    /// failed HLS job is to be deleted.
    pub fn finish(&mut self, id: &str, outcome: &Result<(), String>) -> (cleanup: bool)
        requires
            old(self).wf(),
        ensures
            final(self).wf(),
            final(self).dir_view() == old(self).dir_view(),
            final(self).order() == old(self).order(),
            old(self).jobs().contains_key(id@) ==> final(self).jobs() == old(self).jobs().insert(
                id@,
                finished_view(old(self).jobs()[id@], outcome_view(*outcome)),
            ),
            !old(self).jobs().contains_key(id@) ==> final(self).jobs() == old(self).jobs(),
            cleanup == (old(self).jobs().contains_key(id@) && old(self).jobs()[id@].kind
                == JobKind::Hls && is_failure(outcome_view(*outcome))),
            old(self).synced() ==> final(self).synced(),
    {
        let i = match self.find_index(&to_chars(id)) {
            Some(i) => i,
            None => {
                return false;
            },
        };
        let mut job = self.jobs[i].snapshot();
        let mut cleanup = false;
        match outcome {
            Ok(()) => {
                if !job.is_terminal() {
                    job.status = JobStatus::Completed;
                    job.progress_bits = F64_HUNDRED_BITS;
                }
            },
            Err(e) => {
                if crate::text::eq_str(&to_chars(e.as_str()), "cancelled") {
                    job.status = JobStatus::Cancelled;
                    job.error = None;
                } else {
                    cleanup = job.kind == JobKind::Hls;
                    job.status = JobStatus::Failed;
                    job.error = Some(e.clone());
                }
            },
        }
        proof {
            if self.synced() {
                lemma_sync_update(self.order(), self.jobs(), id@, job@);
            }
            lemma_map_set(self.jobs@, i as int, job);
        }
        self.jobs.set(i, job);
        cleanup
    }
}

pub open spec fn outcome_view(o: Result<(), String>) -> Result<(), Seq<char>> {
    match o {
        Ok(()) => Ok(()),
        Err(e) => Err(e@),
    }
}

/// An outcome other than success or cancellation.
pub open spec fn is_failure(outcome: Result<(), Seq<char>>) -> bool {
    match outcome {
        Ok(()) => false,
        Err(e) => e != "cancelled"@,
    }
}

/// A job after its worker ended with `outcome`.
pub open spec fn finished_view(j: JobView, outcome: Result<(), Seq<char>>) -> JobView {
    match outcome {
        Ok(()) => if is_terminal_status(j.status) {
            j
        } else {
            JobView { status: JobStatus::Completed, progress_bits: F64_HUNDRED_BITS, ..j }
        },
        Err(e) => if e == "cancelled"@ {
            JobView { status: JobStatus::Cancelled, error: None, ..j }
        } else {
            JobView { status: JobStatus::Failed, error: Some(e), ..j }
        },
    }
}

// ------------------------------------------------------------------ the map of jobs

pub proof fn lemma_map_push(s: Seq<DlJob>, j: DlJob)
    requires
        distinct_ids(s),
        !job_map(s).contains_key(j.id@),
    ensures
        distinct_ids(s.push(j)),
        job_map(s.push(j)) == job_map(s).insert(j.id@, j@),
{
    let t = s.push(j);
    assert forall|a: int, b: int| 0 <= a < t.len() && 0 <= b < t.len() && a != b implies t[a].id@
        != t[b].id@ by {
        if a < s.len() && b < s.len() {
            assert(t[a] == s[a] && t[b] == s[b]);
        } else if a < s.len() {
            assert(t[a] == s[a]);
            assert(job_map(s).contains_key(s[a].id@));
        } else {
            assert(t[b] == s[b]);
            assert(job_map(s).contains_key(s[b].id@));
        }
    }
    assert forall|id: Seq<char>| #[trigger] job_map(t).contains_key(id) == job_map(s).insert(
        j.id@,
        j@,
    ).contains_key(id) by {
        if job_map(s).contains_key(id) {
            let k = choose|k: int| 0 <= k < s.len() && s[k].id@ == id;
            assert(t[k] == s[k]);
        }
        if id == j.id@ {
            assert(t[s.len() as int] == j);
        }
        if job_map(t).contains_key(id) {
            let k = choose|k: int| 0 <= k < t.len() && t[k].id@ == id;
            if k < s.len() {
                assert(t[k] == s[k]);
            }
        }
    }
    assert forall|id: Seq<char>| job_map(t).contains_key(id) implies #[trigger] job_map(t)[id]
        == job_map(s).insert(j.id@, j@)[id] by {
        let k = choose|k: int| 0 <= k < t.len() && t[k].id@ == id;
        if k < s.len() {
            assert(t[k] == s[k]);
            let k2 = choose|k2: int| 0 <= k2 < s.len() && s[k2].id@ == id;
            assert(t[k2] == s[k2]);
        } else {
            assert(t[k] == j);
        }
    }
    assert(job_map(t) =~= job_map(s).insert(j.id@, j@));
}

pub proof fn lemma_map_set(s: Seq<DlJob>, i: int, j: DlJob)
    requires
        distinct_ids(s),
        0 <= i < s.len(),
        s[i].id@ == j.id@,
    ensures
        distinct_ids(s.update(i, j)),
        job_map(s.update(i, j)) == job_map(s).insert(j.id@, j@),
{
    let t = s.update(i, j);
    assert forall|a: int, b: int| 0 <= a < t.len() && 0 <= b < t.len() && a != b implies t[a].id@
        != t[b].id@ by {
        assert(t[a].id@ == s[a].id@);
        assert(t[b].id@ == s[b].id@);
    }
    assert forall|id: Seq<char>| #[trigger] job_map(t).contains_key(id) == job_map(s).insert(
        j.id@,
        j@,
    ).contains_key(id) by {
        if job_map(s).contains_key(id) {
            let k = choose|k: int| 0 <= k < s.len() && s[k].id@ == id;
            assert(t[k].id@ == s[k].id@);
        }
        if job_map(t).contains_key(id) {
            let k = choose|k: int| 0 <= k < t.len() && t[k].id@ == id;
            assert(t[k].id@ == s[k].id@);
        }
        assert(t[i].id@ == j.id@);
    }
    assert forall|id: Seq<char>| job_map(t).contains_key(id) implies #[trigger] job_map(t)[id]
        == job_map(s).insert(j.id@, j@)[id] by {
        let k = choose|k: int| 0 <= k < t.len() && t[k].id@ == id;
        assert(t[k].id@ == s[k].id@);
        if id != j.id@ {
            let k2 = choose|k2: int| 0 <= k2 < s.len() && s[k2].id@ == id;
            assert(k2 == k);
        } else {
            assert(k == i);
        }
    }
    assert(job_map(t) =~= job_map(s).insert(j.id@, j@));
}

pub proof fn lemma_map_remove(s: Seq<DlJob>, i: int)
    requires
        distinct_ids(s),
        0 <= i < s.len(),
    ensures
        distinct_ids(s.remove(i)),
        job_map(s.remove(i)) == job_map(s).remove(s[i].id@),
        job_map(s).contains_key(s[i].id@),
        job_map(s)[s[i].id@] == s[i]@,
{
    let t = s.remove(i);
    let rid = s[i].id@;
    assert(forall|a: int| 0 <= a < t.len() ==> #[trigger] t[a] == (if a < i { s[a] } else { s[a + 1] }));
    assert forall|a: int, b: int| 0 <= a < t.len() && 0 <= b < t.len() && a != b implies t[a].id@
        != t[b].id@ by {
        let a2 = if a < i { a } else { a + 1 };
        let b2 = if b < i { b } else { b + 1 };
        assert(t[a] == s[a2] && t[b] == s[b2]);
    }
    let k0 = choose|k: int| 0 <= k < s.len() && s[k].id@ == rid;
    assert(k0 == i);
    assert forall|id: Seq<char>| #[trigger] job_map(t).contains_key(id) == job_map(s).remove(
        rid,
    ).contains_key(id) by {
        if job_map(s).contains_key(id) && id != rid {
            let k = choose|k: int| 0 <= k < s.len() && s[k].id@ == id;
            assert(k != i);
            let k2 = if k < i { k } else { k - 1 };
            assert(t[k2] == s[k]);
        }
        if job_map(t).contains_key(id) {
            let k = choose|k: int| 0 <= k < t.len() && t[k].id@ == id;
            let k2 = if k < i { k } else { k + 1 };
            assert(t[k] == s[k2]);
            assert(k2 != i);
        }
    }
    assert forall|id: Seq<char>| job_map(t).contains_key(id) implies #[trigger] job_map(t)[id]
        == job_map(s).remove(rid)[id] by {
        let k = choose|k: int| 0 <= k < t.len() && t[k].id@ == id;
        let k2 = if k < i { k } else { k + 1 };
        assert(t[k] == s[k2]);
        let k3 = choose|k3: int| 0 <= k3 < s.len() && s[k3].id@ == id;
        assert(k3 == k2);
    }
    assert(job_map(t) =~= job_map(s).remove(rid));
}


// ------------------------------------------------------------------ laws of the store

/// Every running job of `m` is in `m2`, unchanged.
pub open spec fn keeps_running(m: Map<Seq<char>, JobView>, m2: Map<Seq<char>, JobView>) -> bool {
    forall|k: Seq<char>|
        #![trigger m2.contains_key(k)]
        #![trigger m.contains_key(k)]
        m.contains_key(k) && !is_terminal_status(m[k].status) ==> (m2.contains_key(k) && m2[k] == m[k])
}

/// Every job of `m2` is in `m`, unchanged.
pub open spec fn only_from(m: Map<Seq<char>, JobView>, m2: Map<Seq<char>, JobView>) -> bool {
    forall|k: Seq<char>| #![trigger m2.contains_key(k)] m2.contains_key(k) ==> (m.contains_key(k) && m2[k] == m[k])
}

/// Every job in `d` from index `from` on is finished.
pub open spec fn all_finished_from(d: Seq<JobView>, from: int) -> bool {
    forall|i: int| from <= i < d.len() ==> is_terminal_status((#[trigger] d[i]).status)
}

/// The cap never drops a running job, only ever drops jobs, and reports
/// exactly finished jobs.
pub proof fn lemma_eviction_spares_running(
    order: Seq<Seq<char>>,
    m: Map<Seq<char>, JobView>,
    guard: nat,
    dropped: Seq<JobView>,
)
    ensures
        keeps_running(m, evict(order, m, guard, dropped).1),
        only_from(m, evict(order, m, guard, dropped).1),
        evict(order, m, guard, dropped).2.len() >= dropped.len(),
        evict(order, m, guard, dropped).2.take(dropped.len() as int) == dropped,
        all_finished_from(evict(order, m, guard, dropped).2, dropped.len() as int),
    decreases MAX_JOBS + 4 - guard,
{
    let r = evict(order, m, guard, dropped);
    if order.len() > MAX_JOBS && guard < MAX_JOBS + 4 {
        let old_id = order[0];
        let rest = order.drop_first();
        if m.contains_key(old_id) && !is_terminal_status(m[old_id].status) {
            assert(r.2.take(dropped.len() as int) =~= dropped);
        } else if m.contains_key(old_id) {
            let m2 = m.remove(old_id);
            let d2 = dropped.push(m[old_id]);
            lemma_eviction_spares_running(rest, m2, guard + 1, d2);
            assert(r == evict(rest, m2, guard + 1, d2));
            assert forall|k: Seq<char>|
                m.contains_key(k) && !is_terminal_status(m[k].status) implies (r.1.contains_key(
                k,
            ) && r.1[k] == m[k]) by {
                assert(m2.contains_key(k) && m2[k] == m[k]);
            }
            assert forall|k: Seq<char>| r.1.contains_key(k) implies (m.contains_key(k)
                && r.1[k] == m[k]) by {
                assert(m2.contains_key(k) && r.1[k] == m2[k]);
            }
            assert(r.2.take(d2.len() as int).take(dropped.len() as int) =~= r.2.take(
                dropped.len() as int,
            ));
            assert(r.2.take(d2.len() as int)[dropped.len() as int] == m[old_id]);
            assert(r.2[dropped.len() as int] == m[old_id]);
            assert(r.2.take(dropped.len() as int) =~= d2.take(dropped.len() as int));
            assert(d2.take(dropped.len() as int) =~= dropped);
        } else {
            lemma_eviction_spares_running(rest, m, guard + 1, dropped);
        }
    } else {
        assert(r.2.take(dropped.len() as int) =~= dropped);
    }
}

/// The cap keeps the listing at `MAX_JOBS` ids unless the pass stopped at a
/// running job, which it then moved to the end (the listing may exceed the
/// cap while jobs run), provided no more ids were queued than the pass can
/// take off.
pub proof fn lemma_eviction_caps_listing(
    order: Seq<Seq<char>>,
    m: Map<Seq<char>, JobView>,
    guard: nat,
    dropped: Seq<JobView>,
)
    requires
        guard <= MAX_JOBS + 4,
        order.len() <= MAX_JOBS + (MAX_JOBS + 4 - guard),
    ensures
        ({
            let r = evict(order, m, guard, dropped);
            r.0.len() <= MAX_JOBS || (r.1.contains_key(r.0.last()) && !is_terminal_status(
                r.1[r.0.last()].status,
            ))
        }),
    decreases MAX_JOBS + 4 - guard,
{
    if order.len() > MAX_JOBS && guard < MAX_JOBS + 4 {
        let old_id = order[0];
        let rest = order.drop_first();
        if m.contains_key(old_id) && !is_terminal_status(m[old_id].status) {
        } else if m.contains_key(old_id) {
            lemma_eviction_caps_listing(rest, m.remove(old_id), guard + 1, dropped.push(m[old_id]));
        } else {
            lemma_eviction_caps_listing(rest, m, guard + 1, dropped);
        }
    }
}

/// A job just registered is in the store after the cap, and so is every job
/// that was running before.
pub proof fn lemma_registered_job_kept(
    order: Seq<Seq<char>>,
    m: Map<Seq<char>, JobView>,
    job: JobView,
)
    requires
        !is_terminal_status(job.status),
    ensures
        ({
            let r = evict(order.push(job.id), m.insert(job.id, job), 0, Seq::empty());
            &&& r.1.contains_key(job.id)
            &&& r.1[job.id] == job
            &&& forall|k: Seq<char>|
                #![trigger m.contains_key(k)]
                m.contains_key(k) && !is_terminal_status(m[k].status) && k != job.id
                    ==> (r.1.contains_key(k) && r.1[k] == m[k])
            &&& all_finished_from(r.2, 0)
        }),
{
    let m2 = m.insert(job.id, job);
    lemma_eviction_spares_running(order.push(job.id), m2, 0, Seq::empty());
    let r = evict(order.push(job.id), m2, 0, Seq::empty());
    assert(m2.contains_key(job.id) && m2[job.id] == job);
    assert forall|k: Seq<char>|
        m.contains_key(k) && !is_terminal_status(m[k].status) && k != job.id implies (r.1.contains_key(
        k,
    ) && r.1[k] == m[k]) by {
        assert(m2.contains_key(k) && m2[k] == m[k]);
    }
}

/// Taking an id out of the listing removes all its occurrences and keeps
/// every other id.
pub proof fn lemma_without(order: Seq<Seq<char>>, id: Seq<char>)
    ensures
        !without(order, id).contains(id),
        forall|x: Seq<char>| x != id ==> (#[trigger] without(order, id).contains(x) == order.contains(x)),
    decreases order.len(),
{
    if order.len() > 0 {
        let pre = order.drop_last();
        lemma_without(pre, id);
        let w = without(order, id);
        let wp = without(pre, id);
        if order.last() == id {
            assert(w == wp);
        } else {
            assert(w == wp.push(order.last()));
        }
        assert forall|x: Seq<char>| x != id implies (#[trigger] w.contains(x) == order.contains(x)) by {
            if order.contains(x) {
                let k = choose|k: int| 0 <= k < order.len() && order[k] == x;
                if k < pre.len() {
                    assert(pre[k] == x);
                    assert(pre.contains(x));
                    assert(wp.contains(x));
                    let k2 = choose|k2: int| 0 <= k2 < wp.len() && wp[k2] == x;
                    if order.last() != id {
                        assert(w[k2] == x);
                    }
                } else {
                    assert(order.last() == x);
                    assert(w[w.len() - 1] == x);
                }
            }
            if w.contains(x) {
                let k = choose|k: int| 0 <= k < w.len() && w[k] == x;
                if k < wp.len() {
                    assert(wp[k] == x);
                    assert(wp.contains(x));
                    assert(pre.contains(x));
                    let k2 = choose|k2: int| 0 <= k2 < pre.len() && pre[k2] == x;
                    assert(order[k2] == x);
                } else {
                    assert(order.last() == x);
                    assert(order[order.len() - 1] == x);
                }
            }
        }
        if without(order, id).contains(id) {
            if order.last() != id {
                let w = without(order, id);
                let k = choose|k: int| 0 <= k < w.len() && w[k] == id;
                if k < w.len() - 1 {
                    assert(without(pre, id)[k] == id);
                }
            }
        }
    }
}

/// After a job is removed it is neither registered nor listed.
pub proof fn lemma_removed_job_gone(
    order: Seq<Seq<char>>,
    m: Map<Seq<char>, JobView>,
    id: Seq<char>,
)
    ensures
        !m.remove(id).contains_key(id),
        !without(order, id).contains(id),
{
    lemma_without(order, id);
}


// ------------------------------------------------------------------ listing integrity

/// The listing and the stored jobs agree: each id is listed once, and the
/// listed ids are exactly the stored ids.
pub open spec fn in_sync(order: Seq<Seq<char>>, m: Map<Seq<char>, JobView>) -> bool {
    &&& order.no_duplicates()
    &&& forall|id: Seq<char>| #[trigger] order.contains(id) <==> m.contains_key(id)
}

proof fn lemma_without_no_duplicates(order: Seq<Seq<char>>, id: Seq<char>)
    requires
        order.no_duplicates(),
    ensures
        without(order, id).no_duplicates(),
    decreases order.len(),
{
    if order.len() > 0 {
        let pre = order.drop_last();
        assert(pre.no_duplicates()) by {
            assert forall|i: int, j: int| 0 <= i < pre.len() && 0 <= j < pre.len() && i != j implies pre[i]
                != pre[j] by {
                assert(pre[i] == order[i] && pre[j] == order[j]);
            }
        }
        lemma_without_no_duplicates(pre, id);
        lemma_without(pre, id);
        let wp = without(pre, id);
        if order.last() != id {
            assert(!pre.contains(order.last())) by {
                if pre.contains(order.last()) {
                    let k = choose|k: int| 0 <= k < pre.len() && pre[k] == order.last();
                    assert(order[k] == order[order.len() - 1]);
                }
            }
            assert(!wp.contains(order.last()));
            let w = wp.push(order.last());
            assert forall|i: int, j: int| 0 <= i < w.len() && 0 <= j < w.len() && i != j implies w[i]
                != w[j] by {
                if i == wp.len() {
                    assert(!wp.contains(w[j]) || w[j] != order.last());
                } else if j == wp.len() {
                    if w[i] == w[j] {
                        assert(wp.contains(w[i]));
                    }
                }
            }
        }
    }
}

/// Changing the job of a stored id keeps the listing in agreement.
pub proof fn lemma_sync_update(order: Seq<Seq<char>>, m: Map<Seq<char>, JobView>, id: Seq<char>, v: JobView)
    requires
        in_sync(order, m),
        m.contains_key(id),
    ensures
        in_sync(order, m.insert(id, v)),
{
}

/// Registering a new id at the end of the listing keeps the agreement.
pub proof fn lemma_sync_register(order: Seq<Seq<char>>, m: Map<Seq<char>, JobView>, id: Seq<char>, v: JobView)
    requires
        in_sync(order, m),
        !m.contains_key(id),
    ensures
        in_sync(order.push(id), m.insert(id, v)),
{
    let o2 = order.push(id);
    assert forall|x: Seq<char>| #[trigger] o2.contains(x) <==> (order.contains(x) || x == id) by {
        vstd::seq_lib::lemma_seq_contains_after_push(order, id, x);
    }
    assert forall|i: int, j: int| 0 <= i < o2.len() && 0 <= j < o2.len() && i != j implies o2[i] != o2[j] by {
        if i == order.len() {
            assert(order.contains(o2[j]));
        } else if j == order.len() {
            assert(order.contains(o2[i]));
        }
    }
}

/// Removing an id from the store and the listing keeps the agreement.
pub proof fn lemma_sync_remove(order: Seq<Seq<char>>, m: Map<Seq<char>, JobView>, id: Seq<char>)
    requires
        in_sync(order, m),
    ensures
        in_sync(without(order, id), m.remove(id)),
{
    lemma_without(order, id);
    lemma_without_no_duplicates(order, id);
}

/// Moving a stored id to the end of the listing keeps the agreement.
pub proof fn lemma_sync_move_last(order: Seq<Seq<char>>, m: Map<Seq<char>, JobView>, id: Seq<char>, v: JobView)
    requires
        in_sync(order, m),
        m.contains_key(id),
    ensures
        in_sync(without(order, id).push(id), m.insert(id, v)),
{
    lemma_sync_remove(order, m, id);
    lemma_without(order, id);
    lemma_sync_register(without(order, id), m.remove(id), id, v);
    assert(m.remove(id).insert(id, v) =~= m.insert(id, v));
}

/// The cap on stored jobs keeps the agreement.
pub proof fn lemma_sync_evict(order: Seq<Seq<char>>, m: Map<Seq<char>, JobView>, guard: nat, dropped: Seq<JobView>)
    requires
        in_sync(order, m),
    ensures
        in_sync(evict(order, m, guard, dropped).0, evict(order, m, guard, dropped).1),
    decreases MAX_JOBS + 4 - guard,
{
    if order.len() > MAX_JOBS && guard < MAX_JOBS + 4 {
        let old_id = order[0];
        let rest = order.drop_first();
        assert(!rest.contains(old_id)) by {
            if rest.contains(old_id) {
                let k = choose|k: int| 0 <= k < rest.len() && rest[k] == old_id;
                assert(order[k + 1] == order[0]);
            }
        }
        assert(rest.no_duplicates()) by {
            assert forall|i: int, j: int| 0 <= i < rest.len() && 0 <= j < rest.len() && i != j implies rest[i]
                != rest[j] by {
                assert(rest[i] == order[i + 1] && rest[j] == order[j + 1]);
            }
        }
        assert forall|x: Seq<char>| #[trigger] order.contains(x) <==> (rest.contains(x) || x == old_id) by {
            if order.contains(x) && x != old_id {
                let k = choose|k: int| 0 <= k < order.len() && order[k] == x;
                assert(rest[k - 1] == x);
            }
            if rest.contains(x) {
                let k = choose|k: int| 0 <= k < rest.len() && rest[k] == x;
                assert(order[k + 1] == x);
            }
        }
        assert(order.contains(old_id));
        if m.contains_key(old_id) && !is_terminal_status(m[old_id].status) {
            let o2 = rest.push(old_id);
            assert forall|x: Seq<char>| #[trigger] o2.contains(x) <==> m.contains_key(x) by {
                vstd::seq_lib::lemma_seq_contains_after_push(rest, old_id, x);
                assert(order.contains(x) <==> (rest.contains(x) || x == old_id));
            }
            assert forall|i: int, j: int| 0 <= i < o2.len() && 0 <= j < o2.len() && i != j implies o2[i] != o2[j] by {
                if i == rest.len() {
                    assert(rest.contains(o2[j]));
                } else if j == rest.len() {
                    assert(rest.contains(o2[i]));
                }
            }
        } else if m.contains_key(old_id) {
            assert forall|x: Seq<char>| #[trigger] rest.contains(x) <==> m.remove(old_id).contains_key(x) by {
                assert(order.contains(x) <==> (rest.contains(x) || x == old_id));
            }
            assert(in_sync(rest, m.remove(old_id)));
            lemma_sync_evict(rest, m.remove(old_id), guard + 1, dropped.push(m[old_id]));
        } else {
            assert forall|x: Seq<char>| #[trigger] rest.contains(x) <==> m.contains_key(x) by {
                assert(order.contains(x) <==> (rest.contains(x) || x == old_id));
            }
            assert(in_sync(rest, m));
            lemma_sync_evict(rest, m, guard + 1, dropped);
        }
    }
}

/// When every listed id is stored, the listing holds the job of each
/// listed id, in order.
pub proof fn lemma_listed_all(order: Seq<Seq<char>>, m: Map<Seq<char>, JobView>)
    requires
        forall|i: int| 0 <= i < order.len() ==> m.contains_key(#[trigger] order[i]),
    ensures
        listed(order, m).len() == order.len(),
        forall|i: int| 0 <= i < order.len() ==> #[trigger] listed(order, m)[i] == m[order[i]],
    decreases order.len(),
{
    if order.len() > 0 {
        let pre = order.drop_last();
        assert forall|i: int| 0 <= i < pre.len() implies m.contains_key(#[trigger] pre[i]) by {
            assert(pre[i] == order[i]);
        }
        lemma_listed_all(pre, m);
        assert(m.contains_key(order[order.len() - 1]));
        assert forall|i: int| 0 <= i < order.len() implies #[trigger] listed(order, m)[i] == m[order[i]] by {
            if i < pre.len() {
                assert(listed(order, m)[i] == listed(pre, m)[i]);
                assert(pre[i] == order[i]);
            }
        }
    }
}


impl DlStore {
    /// Each stored job is keyed by its own id.
    pub proof fn lemma_keys_are_ids(&self)
        requires
            self.wf(),
        ensures
            forall|k: Seq<char>| #[trigger] self.jobs().contains_key(k) ==> self.jobs()[k].id == k,
    {
        assert forall|k: Seq<char>| #[trigger] self.jobs().contains_key(k) implies self.jobs()[k].id == k by {
            let i = choose|i: int| 0 <= i < self.jobs@.len() && self.jobs@[i].id@ == k;
            assert(self.jobs()[k] == self.jobs@[i]@);
        }
    }

    /// In a store whose listing agrees with its jobs, the listing shows
    /// every stored job exactly once: its entries are the jobs of the listed
    /// ids, in order, those ids are distinct, and they are the stored ids.
    pub proof fn lemma_listing_is_the_store(&self)
        requires
            self.wf(),
            self.synced(),
        ensures
            listed(self.order(), self.jobs()).len() == self.order().len(),
            forall|i: int|
                0 <= i < self.order().len() ==> #[trigger] listed(self.order(), self.jobs())[i] == self.jobs()[self.order()[i]]
                    && listed(self.order(), self.jobs())[i].id == self.order()[i],
            self.order().no_duplicates(),
            forall|id: Seq<char>| #[trigger] self.order().contains(id) <==> self.jobs().contains_key(id),
    {
        let o = self.order();
        assert forall|i: int| 0 <= i < o.len() implies self.jobs().contains_key(#[trigger] o[i]) by {
            assert(o.contains(o[i]));
        }
        lemma_listed_all(o, self.jobs());
        self.lemma_keys_are_ids();
        assert forall|i: int| 0 <= i < o.len() implies #[trigger] listed(o, self.jobs())[i] == self.jobs()[o[i]]
            && listed(o, self.jobs())[i].id == o[i] by {
            assert(self.jobs().contains_key(o[i]));
        }
    }
}
} // verus!
