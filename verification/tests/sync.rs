use iana::sync::{
    failure_verdict, file_verdict, finished, md5_verdict, sync, Action, Effect, Protocol, State, Task,
};

fn tasks() -> Vec<Task> {
    vec![
        Task::new(
            0,
            "delegated-apnic-latest",
            "https://ftp.apnic.net/stats/apnic/delegated-apnic-latest",
            Protocol::Https,
        ),
        Task::new(
            1,
            "delegated-iana-latest",
            "https://ftp.apnic.net/stats/iana/delegated-iana-latest",
            Protocol::Https,
        ),
    ]
}

#[test]
fn protocols() {
    assert_eq!(Protocol::from_scheme("http"), Some(Protocol::Http));
    assert_eq!(Protocol::from_scheme("https"), Some(Protocol::Https));
    assert_eq!(Protocol::from_scheme("ftp"), None);
    assert_eq!(Protocol::from_scheme("HTTP"), None);
    assert_eq!(Protocol::from_scheme(""), None);
}

#[test]
fn new_task() {
    let all = tasks();
    assert_eq!(all[0].index, 0);
    assert_eq!(all[0].filename, "delegated-apnic-latest");
    assert_eq!(all[0].md5_filename, "delegated-apnic-latest.md5");
    assert_eq!(all[0].fileuri, "https://ftp.apnic.net/stats/apnic/delegated-apnic-latest");
    assert_eq!(all[0].md5_fileuri, "https://ftp.apnic.net/stats/apnic/delegated-apnic-latest.md5");
    assert_eq!(all[0].protocol, Protocol::Https);
    assert_eq!(all[0].state, State::Init);
    assert!(!all[0].lock);
    // The file of IANA has no checksum file: it is fetched at once.
    assert_eq!(all[1].state, State::UpdateFile);
}

#[test]
fn running_a_task() {
    let mut t = tasks().remove(0);
    assert_eq!(t.run(), Action::Announce(State::UpdateMd5File));
    assert!(t.lock);
    assert_eq!(t.state, State::Init);
    // A locked task asks for nothing.
    assert_eq!(t.run(), Action::Nothing);
    t.report(State::UpdateMd5File);
    assert!(!t.lock);
    assert_eq!(t.run(), Action::FetchMd5);
    assert!(t.lock);
    t.report(State::UpdateFile);
    assert_eq!(t.run(), Action::FetchFile);
    t.report(State::Success);
    assert!(t.is_finished());
    assert_eq!(t.run(), Action::Nothing);
    assert!(!t.lock);
    t.report(State::Failure("gone".to_string()));
    assert!(t.is_finished());
    assert_eq!(t.run(), Action::Nothing);
    assert!(!t.lock);
}

#[test]
fn checksum_verdicts() {
    let v = md5_verdict(200, Some("abc"), "abc");
    assert_eq!((v.state, v.effect), (State::Success, Effect::Keep));
    let v = md5_verdict(200, Some("abd"), "abc");
    assert_eq!((v.state, v.effect), (State::UpdateFile, Effect::WriteMd5));
    let v = md5_verdict(200, Some("abc"), "");
    assert_eq!((v.state, v.effect), (State::UpdateFile, Effect::WriteMd5));
    // An empty checksum always calls for the file.
    let v = md5_verdict(200, Some(""), "");
    assert_eq!((v.state, v.effect), (State::UpdateFile, Effect::WriteMd5));
    let v = md5_verdict(404, Some("abc"), "abc");
    assert!(matches!(v.state, State::Failure(_)));
    assert_eq!(v.effect, Effect::RemoveMd5);
    let v = md5_verdict(200, None, "abc");
    assert!(matches!(v.state, State::Failure(_)));
    assert_eq!(v.effect, Effect::RemoveMd5);
}

#[test]
fn file_verdicts() {
    let v = file_verdict(200);
    assert_eq!((v.state, v.effect), (State::Success, Effect::WriteFile));
    for status in [0, 199, 201, 301, 404, 500] {
        let v = file_verdict(status);
        assert!(matches!(v.state, State::Failure(_)));
        assert_eq!(v.effect, Effect::RemoveMd5);
    }
    let v = failure_verdict("timed out".to_string());
    assert_eq!((v.state, v.effect), (State::Failure("timed out".to_string()), Effect::RemoveMd5));
}

#[test]
fn rounds_until_done() {
    let mut all = tasks();
    assert!(!finished(&all));
    let actions = sync(&mut all, None);
    assert_eq!(actions, vec![Action::Announce(State::UpdateMd5File), Action::FetchFile]);
    assert!(all[0].lock && all[1].lock);
    // Nothing was reported: every task waits.
    assert_eq!(sync(&mut all, None), vec![Action::Nothing, Action::Nothing]);
    let actions = sync(&mut all, Some((0, State::UpdateMd5File)));
    assert_eq!(actions, vec![Action::FetchMd5, Action::Nothing]);
    let actions = sync(&mut all, Some((1, State::Success)));
    assert_eq!(actions, vec![Action::Nothing, Action::Nothing]);
    assert!(!all[1].lock);
    assert!(!finished(&all));
    // A report for a place without a task is dropped.
    assert_eq!(sync(&mut all, Some((2, State::Success))), vec![Action::Nothing, Action::Nothing]);
    let actions = sync(&mut all, Some((0, State::Failure("no such file".to_string()))));
    assert_eq!(actions, vec![Action::Nothing, Action::Nothing]);
    assert!(finished(&all));
    assert!(finished(&Vec::new()));
}

#[test]
fn planning_a_task() {
    let t = iana::sync::plan(3, "delegated-lacnic-latest", "http://ftp.lacnic.net/pub/stats/lacnic/delegated-lacnic-latest").unwrap();
    assert_eq!(t.index, 3);
    assert_eq!(t.protocol, Protocol::Http);
    assert_eq!(t.state, State::Init);
    assert_eq!(t.md5_fileuri, "http://ftp.lacnic.net/pub/stats/lacnic/delegated-lacnic-latest.md5");
    let t = iana::sync::plan(9, "delegated-iana-latest", "https://ftp.apnic.net/stats/iana/delegated-iana-latest").unwrap();
    assert_eq!(t.protocol, Protocol::Https);
    assert_eq!(t.state, State::UpdateFile);
    assert!(iana::sync::plan(0, "x", "ftp://ftp.apnic.net/public/stats/iana/x").is_none());
    assert!(iana::sync::plan(0, "x", "/only/a/path").is_none());
    assert!(iana::sync::plan(0, "x", "not a url").is_none());
    assert!(iana::sync::plan(0, "x", "").is_none());
}

#[test]
fn every_listed_file_can_be_planned() {
    let files = iana::sync::rir_files();
    assert_eq!(files.len(), 10);
    assert_eq!(files[0].0, "delegated-arin-extended-latest");
    assert_eq!(files[9], ("delegated-iana-latest", "https://ftp.apnic.net/stats/iana/delegated-iana-latest"));
    for (i, (name, url)) in files.iter().enumerate() {
        let t = iana::sync::plan(i, name, url).unwrap();
        assert_eq!(t.index, i);
        assert!(url.ends_with(name));
        assert_eq!(t.state == State::UpdateFile, i == 9);
    }
}
