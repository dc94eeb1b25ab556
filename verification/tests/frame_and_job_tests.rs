use servo_components::frame_tree::{Frame, FrameCache, FrameTree, PipelineId, SubpageId};
use servo_components::service_worker_job::{
    ClientId, FinishJob, Job, JobEffect, JobError, JobQueue, JobType, PromiseId, Registration,
};
use servo_components::origin::{urls_same_origin, OpaqueIds};
use servo_components::session_history::SessionHistory;

fn frame(p: u32, sub: Option<u32>, ctx: &str) -> Frame<String> {
    Frame::new(PipelineId(p), sub.map(SubpageId), ctx.to_string())
}

fn sample_tree() -> FrameTree<String> {
    let mut tree = FrameTree::new();
    tree.add(frame(1, None, "root"), None);
    tree.add(frame(2, Some(10), "child"), Some(PipelineId(1)));
    tree.add(frame(3, Some(11), "grandchild"), Some(PipelineId(2)));
    tree.add(frame(4, Some(12), "second child"), Some(PipelineId(1)));
    tree
}

#[test]
fn frames_are_found_by_pipeline_and_subpage() {
    let tree = sample_tree();
    assert!(tree.has_root());
    assert_eq!(tree.root_context().unwrap(), "root");
    assert_eq!(tree.find(PipelineId(3), None).unwrap().context, "grandchild");
    assert_eq!(tree.get(PipelineId(4)).context, "second child");
    assert!(tree.find(PipelineId(9), None).is_none());
    // With a subpage, the child of the pipeline's frame showing that subpage.
    assert_eq!(tree.find(PipelineId(1), Some(SubpageId(12))).unwrap().context, "second child");
    assert!(tree.find(PipelineId(1), Some(SubpageId(11))).is_none());
    let pipelines = tree.pipelines();
    assert_eq!(pipelines, vec![PipelineId(1), PipelineId(2), PipelineId(3), PipelineId(4)]);
}

#[test]
fn removing_a_frame_takes_its_subtree() {
    let mut tree = sample_tree();
    let removed = tree.maybe_remove(PipelineId(2)).unwrap();
    assert_eq!(removed.context, "child");
    assert_eq!(removed.children.len(), 1);
    assert!(tree.find(PipelineId(3), None).is_none());
    assert_eq!(tree.pipelines(), vec![PipelineId(1), PipelineId(4)]);
    assert!(tree.maybe_remove(PipelineId(2)).is_none());
    let root = tree.remove(PipelineId(1));
    assert_eq!(root.context, "root");
    assert!(!tree.has_root());
}

#[test]
fn empty_tree_finds_nothing() {
    let mut tree: FrameTree<String> = FrameTree::new();
    assert!(!tree.has_root());
    assert!(tree.root_context().is_none());
    assert!(tree.find(PipelineId(1), None).is_none());
    assert!(tree.maybe_remove(PipelineId(1)).is_none());
}

#[test]
fn frame_cache_keeps_frames_in_preorder() {
    let mut tree = sample_tree();
    let removed = tree.maybe_remove(PipelineId(1)).unwrap();
    let mut cache = FrameCache::new();
    assert!(cache.empty());
    cache.add(removed);
    assert!(!cache.empty());
    assert_eq!(cache.cache.len(), 4);
    let order: Vec<u32> = cache.cache.iter().map(|c| c.pipeline.0).collect();
    assert_eq!(order, vec![1, 2, 3, 4]);
    let root = cache.find(PipelineId(1)).unwrap();
    assert_eq!(root.children, vec![PipelineId(2), PipelineId(4)]);
    let gone = cache.remove(PipelineId(2)).unwrap();
    assert_eq!(gone.context, "child");
    assert!(cache.find(PipelineId(2)).is_none());
    assert!(cache.remove(PipelineId(2)).is_none());
}

#[test]
fn session_history_tracks_the_active_document() {
    let mut history = SessionHistory::new();
    history.push("a");
    assert_eq!(*history.active_document(), "a");
    history.push("b");
    assert_eq!(*history.active_document(), "b");
    history.replace("c");
    assert_eq!(*history.active_document(), "c");
    assert_eq!(history.documents(), &vec!["a", "c"]);
}

fn job(job_type: JobType, scope: &str, script: &str, promise: u64) -> Job {
    Job::create_job(
        job_type,
        scope.to_string(),
        script.to_string(),
        PromiseId(promise),
        ClientId(1),
        "https://example.com/".to_string(),
    )
}

#[test]
fn jobs_are_equivalent_by_type_scope_and_script() {
    let a = job(JobType::Register, "s", "x.js", 1);
    let b = job(JobType::Register, "s", "x.js", 2);
    let c = job(JobType::Register, "s", "y.js", 3);
    let d = job(JobType::Unregister, "s", "y.js", 4);
    let e = job(JobType::Unregister, "s", "z.js", 5);
    assert!(a.equivalent(&b));
    assert!(!a.equivalent(&c));
    assert!(!c.equivalent(&d));
    assert!(d.equivalent(&e));
}

#[test]
fn scheduling_queues_and_merges_jobs() {
    let mut queue = JobQueue::new();
    let scope = "https://example.com/".to_string();
    assert!(queue.schedule_job(job(JobType::Register, &scope, "a.js", 1), false));
    // Equivalent to the last job, whose promise is not settled: merged.
    assert!(!queue.schedule_job(job(JobType::Register, &scope, "a.js", 2), false));
    let front = queue.front_job(&scope).unwrap();
    assert_eq!(front.promise, PromiseId(1));
    assert_eq!(front.equivalent_jobs.len(), 1);
    // Not equivalent: queued after it.
    assert!(!queue.schedule_job(job(JobType::Update, &scope, "a.js", 3), false));
    assert_eq!(queue.last_job(&scope).unwrap().promise, PromiseId(3));
    // Equivalent but the last promise is settled: queued too.
    assert!(!queue.schedule_job(job(JobType::Update, &scope, "a.js", 4), true));
    assert_eq!(queue.last_job(&scope).unwrap().promise, PromiseId(4));
    assert!(queue.finish_job(&scope));
    assert_eq!(queue.front_job(&scope).unwrap().promise, PromiseId(3));
    assert!(queue.finish_job(&scope));
    assert!(!queue.finish_job(&scope));
    assert!(queue.front_job(&scope).is_none());
    assert!(!queue.finish_job(&scope));
}

fn type_error_of(effect: &JobEffect) -> Option<(u64, String)> {
    match effect {
        JobEffect::Reject(p, JobError::Type(m)) => Some((p.0, m.clone())),
        _ => None,
    }
}

#[test]
fn update_rejects_without_a_usable_registration() {
    let queue = JobQueue::new();
    let j = job(JobType::Update, "s", "a.js", 7);
    let (finish, effects) = queue.update(&j, &None);
    assert_eq!(finish, FinishJob::Invoke);
    assert_eq!(type_error_of(&effects[0]), Some((7, "No registration to update".to_string())));
    let uninstalling = Some(Registration { uninstalling: true, newest_worker: Some("a.js".to_string()) });
    let (finish, effects) = queue.update(&j, &uninstalling);
    assert_eq!(finish, FinishJob::Invoke);
    assert_eq!(
        type_error_of(&effects[0]),
        Some((7, "Update called on an uninstalling registration".to_string()))
    );
    let no_worker = Some(Registration { uninstalling: false, newest_worker: None });
    let (finish, effects) = queue.update(&j, &no_worker);
    assert_eq!(finish, FinishJob::DoNotInvoke);
    assert!(effects.is_empty());
    let same_script = Some(Registration { uninstalling: false, newest_worker: Some("a.js".to_string()) });
    let (finish, effects) = queue.update(&j, &same_script);
    assert_eq!(finish, FinishJob::Invoke);
    assert_eq!(type_error_of(&effects[0]), Some((7, "Invalid script ServoURL".to_string())));
}

#[test]
fn update_installs_the_newest_worker() {
    let queue = JobQueue::new();
    let j = job(JobType::Update, "s", "b.js", 8);
    let reg = Some(Registration { uninstalling: false, newest_worker: Some("a.js".to_string()) });
    let (finish, effects) = queue.update(&j, &reg);
    assert_eq!(finish, FinishJob::Invoke);
    assert_eq!(effects.len(), 2);
    assert!(matches!(&effects[0], JobEffect::SetController(ClientId(1), w) if w == "a.js"));
    assert!(matches!(&effects[1], JobEffect::Resolve(PromiseId(8), s) if s == "s"));
}

#[test]
fn register_checks_origins_first() {
    let queue = JobQueue::new();
    let j = job(JobType::Register, "s", "a.js", 9);
    let mut reg = None;
    let (finish, effects) = queue.run_register(&j, false, true, true, &mut reg);
    assert_eq!(finish, FinishJob::Invoke);
    assert_eq!(type_error_of(&effects[0]), Some((9, "Invalid script ServoURL".to_string())));
    let (finish, effects) = queue.run_register(&j, true, false, true, &mut reg);
    assert_eq!(finish, FinishJob::Invoke);
    assert!(matches!(effects[0], JobEffect::Reject(PromiseId(9), JobError::Security)));
    assert!(reg.is_none());
}

#[test]
fn register_makes_a_registration() {
    let queue = JobQueue::new();
    let j = job(JobType::Register, "s", "a.js", 10);
    let mut reg = None;
    let (finish, _effects) = queue.run_register(&j, true, true, true, &mut reg);
    assert_eq!(finish, FinishJob::Invoke);
    let r = reg.unwrap();
    assert!(!r.uninstalling);
    assert_eq!(r.newest_worker, Some("a.js".to_string()));
}

#[test]
fn jobs_check_their_urls_against_the_referrers_origin() {
    let mut ids = OpaqueIds::new();
    let same = Job::create_job(
        JobType::Register,
        "https://a.test/app/".to_string(),
        "https://a.test:443/app/sw.js".to_string(),
        PromiseId(1),
        ClientId(1),
        "https://a.test/index.html".to_string(),
    );
    assert_eq!(same.origin_checks(&mut ids), Some((true, true)));
    let other_script = Job::create_job(
        JobType::Register,
        "https://a.test/app/".to_string(),
        "https://b.test/sw.js".to_string(),
        PromiseId(2),
        ClientId(1),
        "https://a.test/index.html".to_string(),
    );
    assert_eq!(other_script.origin_checks(&mut ids), Some((false, true)));
    let files = Job::create_job(
        JobType::Register,
        "file:///app/".to_string(),
        "file:///app/sw.js".to_string(),
        PromiseId(3),
        ClientId(1),
        "file:///app/index.html".to_string(),
    );
    assert_eq!(files.origin_checks(&mut ids), Some((false, false)));
    let broken = Job::create_job(
        JobType::Register,
        "https://a.test/app/".to_string(),
        "not a url".to_string(),
        PromiseId(4),
        ClientId(1),
        "https://a.test/index.html".to_string(),
    );
    assert_eq!(broken.origin_checks(&mut ids), None);
    assert_eq!(urls_same_origin("http://a.test/x", "http://a.test:80/y", &mut ids), Some(true));
    assert_eq!(urls_same_origin("http://a.test/x", "https://a.test/x", &mut ids), Some(false));
}
