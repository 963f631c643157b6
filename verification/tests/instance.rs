use nap_alarm::instance::{
    claim_next, claim_start, is_daemon_comm, parse_pid, pid_text, ClaimEvent, ClaimStep,
};

/// A pid file held in memory: `None` when there is none, `Some(None)` when it cannot be
/// read, `Some(Some(text))` otherwise.
type PidFileInMemory = Option<Option<String>>;

fn readable(text: &str) -> PidFileInMemory {
    Some(Some(text.to_string()))
}

fn text_of(file: &PidFileInMemory) -> Option<&str> {
    file.as_ref().and_then(|text| text.as_deref())
}

/// Runs a claim against a pid file held in memory, the way the daemon runs it against the
/// real one.
fn claim(file: &mut PidFileInMemory, my_pid: u32, alive: impl Fn(u32) -> bool) -> bool {
    let mut step = claim_start();
    let mut aside: PidFileInMemory = None;
    loop {
        let event = match &step {
            ClaimStep::Publish { .. } => match file {
                Some(_) => ClaimEvent::AlreadyExists,
                None => {
                    *file = Some(Some(pid_text(my_pid)));
                    ClaimEvent::Published
                }
            },
            ClaimStep::ReadHolder { .. } => ClaimEvent::HolderRead(file.clone().flatten()),
            ClaimStep::CheckAlive { pid, .. } => ClaimEvent::Alive(alive(*pid)),
            ClaimStep::SetAside { .. } => match file.take() {
                Some(text) => {
                    aside = Some(text.clone());
                    ClaimEvent::SetAside(text)
                }
                None => ClaimEvent::Gone,
            },
            ClaimStep::Discard { .. } => {
                aside = None;
                ClaimEvent::Discarded
            }
            ClaimStep::PutBack { .. } => {
                if file.is_none() {
                    *file = aside.take();
                }
                ClaimEvent::PutBack
            }
            ClaimStep::Done(won) => return *won,
        };
        step = claim_next(&step, event);
    }
}

fn nobody_is_alive(_pid: u32) -> bool {
    false
}

#[test]
fn the_first_instance_claims_the_daemon_role() {
    let mut file: PidFileInMemory = None;
    assert!(claim(&mut file, 4242, nobody_is_alive));
    assert_eq!(text_of(&file), Some("4242"));
}

#[test]
fn a_second_instance_does_not_claim_it_while_the_first_is_alive() {
    let mut file: PidFileInMemory = None;
    assert!(claim(&mut file, 4242, nobody_is_alive));
    assert!(!claim(&mut file, 4243, |pid| pid == 4242));
    assert_eq!(text_of(&file), Some("4242"), "第二个实例不该顶掉守护写的 pid");
}

#[test]
fn a_stale_pid_file_is_taken_over() {
    let mut file = readable("4242");
    assert!(claim(&mut file, 4243, nobody_is_alive));
    assert_eq!(text_of(&file), Some("4243"));
}

#[test]
fn the_holder_pid_is_read_back_from_the_file() {
    let mut file: PidFileInMemory = None;
    assert_eq!(text_of(&file).and_then(parse_pid), None, "文件不存在时不该编一个号出来");
    assert!(claim(&mut file, 4242, |_| false));
    assert_eq!(text_of(&file).and_then(parse_pid), Some(4242));
}

#[test]
fn a_pid_reused_by_another_program_is_not_mistaken_for_the_daemon() {
    assert!(!is_daemon_comm("sshd\n"));
    assert!(is_daemon_comm("nap-alarm\n"));
}

#[test]
fn garbage_in_the_pid_file_is_treated_as_stale() {
    let mut file = readable("not a pid");
    assert!(claim(&mut file, 7, |_| true));
    assert_eq!(text_of(&file), Some("7"));
}

#[test]
fn pid_text_parses_like_std() {
    assert_eq!(parse_pid(" 4242\n"), Some(4242));
    assert_eq!(parse_pid("+17"), Some(17));
    assert_eq!(parse_pid("4294967295"), Some(u32::MAX));
    assert_eq!(parse_pid("4294967296"), None);
    assert_eq!(parse_pid("-1"), None);
    assert_eq!(parse_pid(""), None);
    assert_eq!(parse_pid("12a"), None);
    assert_eq!(pid_text(0), "0");
    assert_eq!(pid_text(u32::MAX), "4294967295");
}

#[test]
fn a_claim_that_cannot_create_the_file_gives_up() {
    let step = claim_next(&claim_start(), ClaimEvent::PublishFailed);
    assert!(matches!(step, ClaimStep::Done(false)));
    // a file that keeps reappearing is tried twice, then left alone
    let mut step = claim_start();
    for _ in 0..2 {
        step = claim_next(&step, ClaimEvent::AlreadyExists);
        step = claim_next(&step, ClaimEvent::HolderRead(Some("junk".to_string())));
        assert!(matches!(step, ClaimStep::SetAside { .. }));
        step = claim_next(&step, ClaimEvent::SetAside(Some("junk".to_string())));
        assert!(matches!(step, ClaimStep::Discard { .. }));
        step = claim_next(&step, ClaimEvent::Discarded);
    }
    assert!(matches!(step, ClaimStep::Done(false)));
}

#[test]
fn a_fresh_file_found_when_removing_a_stale_one_is_put_back() {
    // both instances judged the same dead holder stale; the other one already replaced it
    let step = claim_next(&claim_start(), ClaimEvent::AlreadyExists);
    let step = claim_next(&step, ClaimEvent::HolderRead(Some("4242".to_string())));
    assert!(matches!(step, ClaimStep::CheckAlive { pid: 4242, .. }));
    let step = claim_next(&step, ClaimEvent::Alive(false));
    let step = claim_next(&step, ClaimEvent::SetAside(Some("4243".to_string())));
    assert!(matches!(step, ClaimStep::PutBack { round: 0 }));
    let step = claim_next(&step, ClaimEvent::PutBack);
    assert!(matches!(step, ClaimStep::Publish { round: 1 }));
}

#[test]
fn two_instances_racing_over_a_stale_file_leave_one_daemon() {
    // both read the dead holder's file, then the first removes it and publishes; the
    // second finds the fresh file when it moves the stale one aside, and puts it back
    let mut file: Option<String> = Some("4242".to_string());
    let alive = |pid: u32| pid == 7 || pid == 8;
    let mut first = claim_next(&claim_start(), ClaimEvent::AlreadyExists);
    let mut second = claim_next(&claim_start(), ClaimEvent::AlreadyExists);
    first = claim_next(&first, ClaimEvent::HolderRead(file.clone()));
    second = claim_next(&second, ClaimEvent::HolderRead(file.clone()));
    first = claim_next(&first, ClaimEvent::Alive(alive(4242)));
    second = claim_next(&second, ClaimEvent::Alive(alive(4242)));
    first = claim_next(&first, ClaimEvent::SetAside(file.take()));
    first = claim_next(&first, ClaimEvent::Discarded);
    assert!(matches!(first, ClaimStep::Publish { round: 1 }));
    file = Some(pid_text(7));
    first = claim_next(&first, ClaimEvent::Published);
    let taken = file.take();
    second = claim_next(&second, ClaimEvent::SetAside(taken.clone()));
    assert!(matches!(second, ClaimStep::PutBack { .. }));
    file = taken;
    second = claim_next(&second, ClaimEvent::PutBack);
    second = claim_next(&second, ClaimEvent::AlreadyExists);
    second = claim_next(&second, ClaimEvent::HolderRead(file.clone()));
    second = claim_next(&second, ClaimEvent::Alive(alive(7)));
    assert!(matches!(first, ClaimStep::Done(true)));
    assert!(matches!(second, ClaimStep::Done(false)));
    assert_eq!(file.as_deref(), Some("7"));
}

#[test]
fn an_unreadable_pid_file_is_treated_as_stale() {
    let mut file: PidFileInMemory = Some(None);
    assert!(claim(&mut file, 7, |_| true));
    assert_eq!(text_of(&file), Some("7"));
    // judged unreadable, but a readable file stands there when it is moved aside: put back
    let step = claim_next(&claim_start(), ClaimEvent::AlreadyExists);
    let step = claim_next(&step, ClaimEvent::HolderRead(None));
    assert!(matches!(step, ClaimStep::SetAside { seen: None, .. }));
    let step = claim_next(&step, ClaimEvent::SetAside(Some("8".to_string())));
    assert!(matches!(step, ClaimStep::PutBack { round: 0 }));
    // and one that is gone by then leaves the place free for the next try
    let step = claim_next(&claim_start(), ClaimEvent::AlreadyExists);
    let step = claim_next(&step, ClaimEvent::HolderRead(None));
    let step = claim_next(&step, ClaimEvent::Gone);
    assert!(matches!(step, ClaimStep::Publish { round: 1 }));
}
