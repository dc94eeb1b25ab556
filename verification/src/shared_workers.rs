//! Shared workers: the workers running for each origin, the matching of a
//! new `SharedWorker` to a running one (same script URL and name, not
//! closing), and the count of references that tears a worker down.
use vstd::prelude::*;
use crate::string_map::StringMap;
use crate::origin::{join_url, url_join};

verus! {

/// A running shared worker: the channel to it (by identity), the URL it was
/// constructed with, whether it is closing, how many `SharedWorker` objects
/// refer to it, and its name.
pub struct SharedWorkerData {
    pub sender: u64,
    pub constructor_url: String,
    pub closing: bool,
    pub references: u32,
    pub name: String,
}

/// The shared workers of each origin, in the order they were started.
pub struct SharedWorkerManager {
    worker_globals: StringMap<Vec<SharedWorkerData>>,
}

/// Whether `d` is a worker that a new `SharedWorker` for `url` named `name`
/// connects to.
pub open spec fn matches_worker(d: SharedWorkerData, url: Seq<char>, name: Seq<char>) -> bool {
    !d.closing && d.constructor_url@ == url && d.name@ == name
}

/// The first worker of `ws` that matches, if any.
pub open spec fn first_match(ws: Seq<SharedWorkerData>, url: Seq<char>, name: Seq<char>) -> Option<int> {
    if exists|i: int| 0 <= i < ws.len() && matches_worker(#[trigger] ws[i], url, name) {
        Some(choose|i: int| 0 <= i < ws.len() && matches_worker(#[trigger] ws[i], url, name) && forall|j: int|
            0 <= j < i ==> !matches_worker(#[trigger] ws[j], url, name))
    } else {
        None
    }
}

/// The workers of `origin` in `m` (none when it has had none).
pub open spec fn workers_of(m: Map<Seq<char>, Vec<SharedWorkerData>>, origin: Seq<char>) -> Seq<SharedWorkerData> {
    if m.contains_key(origin) {
        m[origin]@
    } else {
        Seq::empty()
    }
}

impl SharedWorkerManager {
    pub closed spec fn wf(&self) -> bool {
        self.worker_globals.wf()
    }

    /// The workers of each origin.
    pub closed spec fn workers(&self) -> Map<Seq<char>, Vec<SharedWorkerData>> {
        self.worker_globals@
    }

    pub fn new() -> (m: SharedWorkerManager)
        ensures
            m.wf(),
            m.workers() == Map::<Seq<char>, Vec<SharedWorkerData>>::empty(),
    {
        SharedWorkerManager { worker_globals: StringMap::new() }
    }

    /// Connects a new `SharedWorker` of `origin` to a worker: the first
    /// running one for `worker_url` named `worker_name` that is not closing
    /// gets one more reference (wrapping around); without one, a new worker
    /// is started with channel `new_sender`, the closing flag `closing` it
    /// shares with its scope, and one reference, after the origin's others.
    /// Returns the worker's channel, its index among the
    /// origin's workers, and whether it was started.
    pub fn create_worker(
        &mut self,
        origin: String,
        worker_url: String,
        worker_name: String,
        new_sender: u64,
        closing: bool,
    ) -> (r: (u64, usize, bool))
        requires
            old(self).wf(),
        ensures
            final(self).wf(),
            final(self).workers().contains_key(origin@),
            final(self).workers().remove(origin@) == old(self).workers().remove(origin@),
            ({
                let ws0 = workers_of(old(self).workers(), origin@);
                let ws1 = final(self).workers()[origin@]@;
                match first_match(ws0, worker_url@, worker_name@) {
                    Some(i) => {
                        &&& !r.2
                        &&& r.1 == i
                        &&& r.0 == ws0[i].sender
                        &&& ws1.len() == ws0.len()
                        &&& forall|j: int| 0 <= j < ws0.len() && j != i ==> #[trigger] ws1[j] == ws0[j]
                        &&& ws1[i].references == (if ws0[i].references == u32::MAX { 0 } else { (ws0[i].references + 1) as u32 })
                        &&& ws1[i].sender == ws0[i].sender
                        &&& ws1[i].constructor_url == ws0[i].constructor_url
                        &&& ws1[i].closing == ws0[i].closing
                        &&& ws1[i].name == ws0[i].name
                    },
                    None => {
                        &&& r.2
                        &&& r.1 == ws0.len()
                        &&& r.0 == new_sender
                        &&& ws1.len() == ws0.len() + 1
                        &&& ws1.take(ws0.len() as int) == ws0
                        &&& ws1.last() == SharedWorkerData {
                            sender: new_sender,
                            constructor_url: worker_url,
                            closing: closing,
                            references: 1,
                            name: worker_name,
                        }
                    },
                }
            }),
    {
        let mut entry = match self.worker_globals.remove(&origin) {
            Some(v) => v,
            None => Vec::new(),
        };
        let ghost ws0 = entry@;
        let n = entry.len();
        let mut i: usize = 0;
        let mut found: Option<usize> = None;
        while i < n
            invariant_except_break
                found is None,
            invariant
                n == entry@.len(),
                entry@ == ws0,
                i <= n,
                forall|j: int| 0 <= j < i ==> !matches_worker(#[trigger] ws0[j], worker_url@, worker_name@),
            ensures
                entry@ == ws0,
                match found {
                    Some(k) => k < n && matches_worker(ws0[k as int], worker_url@, worker_name@) && forall|j: int|
                        0 <= j < k ==> !matches_worker(#[trigger] ws0[j], worker_url@, worker_name@),
                    None => forall|j: int| 0 <= j < n ==> !matches_worker(#[trigger] ws0[j], worker_url@, worker_name@),
                },
            decreases n - i,
        {
            let d = &entry[i];
            if !d.closing && d.constructor_url == worker_url && d.name == worker_name {
                found = Some(i);
                break ;
            }
            i = i + 1;
        }
        proof {
            match found {
                Some(k) => {
                    let c = choose|c: int| 0 <= c < ws0.len() && matches_worker(#[trigger] ws0[c], worker_url@, worker_name@) && forall|j: int|
                        0 <= j < c ==> !matches_worker(#[trigger] ws0[j], worker_url@, worker_name@);
                    assert(c == k as int) by {
                        if c < k as int {
                            assert(!matches_worker(ws0[c], worker_url@, worker_name@));
                        }
                        if c > k as int {
                            assert(!matches_worker(ws0[k as int], worker_url@, worker_name@));
                        }
                    }
                },
                None => {},
            }
        }
        let r = match found {
            Some(k) => {
                let d = &mut entry[k];
                d.references = d.references.wrapping_add(1);
                (d.sender, k, false)
            },
            None => {
                entry.push(
                    SharedWorkerData {
                        sender: new_sender,
                        constructor_url: worker_url,
                        closing,
                        references: 1,
                        name: worker_name,
                    },
                );
                proof {
                    assert(entry@.take(ws0.len() as int) =~= ws0);
                }
                (new_sender, n, true)
            },
        };
        self.worker_globals.insert(origin, entry);
        proof {
            assert(self.workers().remove(origin@) =~= old(self).workers().remove(origin@));
        }
        r
    }
}


impl SharedWorkerManager {
    /// A `SharedWorker` referring to worker `index` of `origin` is dropped:
    /// the worker has one reference less (wrapping around); returns whether
    /// that was its last one, when the worker must be torn down.
    pub fn release_reference(&mut self, origin: &String, index: usize) -> (teardown: bool)
        requires
            old(self).wf(),
            index < workers_of(old(self).workers(), origin@).len(),
        ensures
            final(self).wf(),
            ({
                let ws0 = workers_of(old(self).workers(), origin@);
                let ws1 = workers_of(final(self).workers(), origin@);
                &&& teardown == (ws0[index as int].references == 1)
                &&& ws1.len() == ws0.len()
                &&& forall|j: int| 0 <= j < ws0.len() && j != index ==> #[trigger] ws1[j] == ws0[j]
                &&& ws1[index as int].references == (if ws0[index as int].references == 0 { u32::MAX } else { (ws0[index as int].references - 1) as u32 })
                &&& ws1[index as int].sender == ws0[index as int].sender
                &&& ws1[index as int].constructor_url == ws0[index as int].constructor_url
                &&& ws1[index as int].closing == ws0[index as int].closing
                &&& ws1[index as int].name == ws0[index as int].name
            }),
            final(self).workers().remove(origin@) == old(self).workers().remove(origin@),
            final(self).workers().contains_key(origin@),
    {
        let mut entry = self.worker_globals.remove(origin).unwrap();
        let d = &mut entry[index];
        let before = d.references;
        d.references = d.references.wrapping_sub(1);
        self.worker_globals.insert(origin.clone(), entry);
        proof {
            assert(self.workers().remove(origin@) =~= old(self).workers().remove(origin@));
        }
        before == 1
    }

    /// Worker `index` of `origin` is closing (or not): new `SharedWorker`s
    /// no longer connect to a closing worker.
    pub fn set_closing(&mut self, origin: &String, index: usize, closing: bool)
        requires
            old(self).wf(),
            index < workers_of(old(self).workers(), origin@).len(),
        ensures
            final(self).wf(),
            ({
                let ws0 = workers_of(old(self).workers(), origin@);
                let ws1 = workers_of(final(self).workers(), origin@);
                &&& ws1.len() == ws0.len()
                &&& forall|j: int| 0 <= j < ws0.len() && j != index ==> #[trigger] ws1[j] == ws0[j]
                &&& ws1[index as int] == SharedWorkerData { closing, ..ws0[index as int] }
            }),
            final(self).workers().remove(origin@) == old(self).workers().remove(origin@),
            final(self).workers().contains_key(origin@),
    {
        let mut entry = self.worker_globals.remove(origin).unwrap();
        let d = &mut entry[index];
        d.closing = closing;
        self.worker_globals.insert(origin.clone(), entry);
        proof {
            assert(self.workers().remove(origin@) =~= old(self).workers().remove(origin@));
        }
    }
}

/// The name of a shared worker or its options.
pub enum StringOrWorkerOptions {
    String(String),
    WorkerOptions { name: String },
}

/// Why constructing a `SharedWorker` fails.
#[derive(Clone, Copy, PartialEq, Eq, Structural, Debug)]
pub enum SharedWorkerError {
    Syntax,
}

/// The checks of the `SharedWorker` constructor: the name comes from a
/// string or from the options; the script URL must resolve against the base
/// URL, else a syntax error. The worker is then created for the script URL
/// as given (see [`SharedWorkerManager::create_worker`]).
pub fn shared_worker_request(
    base_url: &String,
    script_url: String,
    name_or_options: StringOrWorkerOptions,
) -> (r: Result<(String, String), SharedWorkerError>)
    ensures
        match r {
            Ok((url, name)) => url_join(base_url@, script_url@) is Some && url == script_url
                && name == match name_or_options {
                StringOrWorkerOptions::String(n) => n,
                StringOrWorkerOptions::WorkerOptions { name } => name,
            },
            Err(e) => url_join(base_url@, script_url@) is None && e == SharedWorkerError::Syntax,
        },
{
    let name = match name_or_options {
        StringOrWorkerOptions::String(n) => n,
        StringOrWorkerOptions::WorkerOptions { name } => name,
    };
    match join_url(base_url.as_str(), script_url.as_str()) {
        Ok(_) => Ok((script_url, name)),
        Err(_) => Err(SharedWorkerError::Syntax),
    }
}

} // verus!
