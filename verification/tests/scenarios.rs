use screenshot_mover::channel::{EventChannel, TryReceiveError};
use screenshot_mover::entry::{DirEntry, EntryKind};
use screenshot_mover::file_operations::{get_note_dirs, NoteCandidate};
use screenshot_mover::menu::{menu, MenuError, MenuEvent, MenuRequest, MenuState, Move};
use screenshot_mover::screenshot::{ListenerRequest, ScreenshotListener};

/// A file system in memory: directories, and files with their content.
struct Disk {
    dirs: Vec<String>,
    files: Vec<(String, String)>,
}

fn parent(path: &str) -> &str {
    match path.rfind('/') {
        Some(at) => &path[..at],
        None => "",
    }
}

fn name(path: &str) -> &str {
    match path.rfind('/') {
        Some(at) => &path[at + 1..],
        None => path,
    }
}

impl Disk {
    fn new(dirs: &[&str]) -> Disk {
        Disk { dirs: dirs.iter().map(|dir| dir.to_string()).collect(), files: Vec::new() }
    }

    fn create(&mut self, path: &str, content: &str) {
        self.files.push((path.to_string(), content.to_string()));
    }

    fn content(&self, path: &str) -> Option<&str> {
        self.files.iter().find(|(at, _)| at == path).map(|(_, content)| content.as_str())
    }

    fn list(&self, dir: &str) -> Result<Vec<DirEntry>, String> {
        if !self.dirs.iter().any(|known| known == dir) {
            return Err(format!("{}: no such directory", dir));
        }
        let mut entries = Vec::new();
        for sub in &self.dirs {
            if parent(sub) == dir {
                entries.push(DirEntry::new(name(sub).to_string(), sub.clone(), EntryKind::Directory));
            }
        }
        for (path, _) in &self.files {
            if parent(path) == dir {
                entries.push(DirEntry::new(name(path).to_string(), path.clone(), EntryKind::File));
            }
        }
        Ok(entries)
    }

    fn rename(&mut self, from: &str, to: &str) -> Result<(), String> {
        if !self.dirs.iter().any(|known| known == parent(to)) {
            return Err(format!("{}: no such directory", parent(to)));
        }
        match self.files.iter_mut().find(|(at, _)| at == from) {
            Some(file) => {
                file.0 = to.to_string();
                Ok(())
            },
            None => Err(format!("{}: no such file", from)),
        }
    }

    fn notes(&self, root: &str) -> Vec<String> {
        let candidates: Vec<NoteCandidate> = self
            .list(root)
            .unwrap()
            .into_iter()
            .map(|entry| {
                let listing = self.list(&entry.path).ok();
                NoteCandidate::new(entry, listing)
            })
            .collect();
        get_note_dirs(&candidates)
    }
}

/// Runs the workflow until it waits for an answer that the user has not
/// given, and gives the state it waits in with what was reported on the way.
fn run(
    mut state: MenuState,
    answers: Vec<MenuEvent>,
    disk: &mut Disk,
    notes: &Vec<String>,
    channel: &mut EventChannel<String>,
) -> (MenuState, Vec<MenuError>) {
    let mut answers = answers.into_iter();
    let mut reported = Vec::new();
    loop {
        let event = match state.request() {
            MenuRequest::Exit => return (state, reported),
            MenuRequest::Rename(from, to) => MenuEvent::Renamed(disk.rename(&from, &to)),
            _ => match answers.next() {
                Some(answer) => answer,
                None => return (state, reported),
            },
        };
        let step = menu(state, event, notes, channel);
        state = step.state;
        reported.extend(step.errors);
    }
}

/// One round of the polling loop on the disk.
fn tick(
    listener: &mut ScreenshotListener,
    disk: &Disk,
    events: &mut EventChannel<String>,
    stop: &mut EventChannel<()>,
) {
    assert_ne!(listener.request(), ListenerRequest::Exit);
    let listing = disk.list(listener.path());
    listener.poll(listing, events, stop);
}

#[test]
fn screenshot_is_moved_into_the_chosen_note_directory() {
    let mut disk = Disk::new(&["/shots", "/notes", "/notes/A", "/notes/A/img"]);
    let notes = disk.notes("/notes");
    assert_eq!(notes, vec!["/notes/A".to_string()]);

    let mut listener = ScreenshotListener::new("/shots");
    let (mut events, mut stop) = listener.listen();
    tick(&mut listener, &disk, &mut events, &mut stop);

    let (state, reported) =
        run(MenuState::new(), vec![MenuEvent::Selected(Some(0))], &mut disk, &notes, &mut events);
    assert_eq!(state, MenuState::Listening("/notes/A".to_string(), None));
    assert!(reported.is_empty());

    disk.create("/shots/shot1.png", "pixels");
    tick(&mut listener, &disk, &mut events, &mut stop);
    assert_eq!(events.len(), 1);

    let (state, reported) =
        run(state, vec![MenuEvent::Continue(Some(true))], &mut disk, &notes, &mut events);
    assert_eq!(state.request(), MenuRequest::Input("/shots/shot1.png".to_string()));
    let (state, reported_later) =
        run(state, vec![MenuEvent::Named("foo.png".to_string())], &mut disk, &notes, &mut events);
    assert_eq!(state.request(), MenuRequest::Confirm("/notes/A/img/foo.png".to_string()));
    let (state, reported_last) =
        run(state, vec![MenuEvent::Confirmed(true)], &mut disk, &notes, &mut events);

    assert_eq!(state, MenuState::Listening("/notes/A".to_string(), None));
    assert!(reported.is_empty() && reported_later.is_empty() && reported_last.is_empty());
    assert_eq!(disk.content("/notes/A/img/foo.png"), Some("pixels"));
    assert_eq!(disk.content("/shots/shot1.png"), None);
    assert_eq!(disk.files.len(), 1);

    let (state, _) = run(state, vec![MenuEvent::Continue(None)], &mut disk, &notes, &mut events);
    assert_eq!(state, MenuState::Stopped);
}

#[test]
fn one_of_two_screenshots_is_declined_and_the_other_moved() {
    let mut disk = Disk::new(&["/shots", "/notes", "/notes/A", "/notes/A/img"]);
    let notes = disk.notes("/notes");
    let mut listener = ScreenshotListener::new("/shots");
    let (mut events, mut stop) = listener.listen();
    tick(&mut listener, &disk, &mut events, &mut stop);

    disk.create("/shots/first.png", "one");
    disk.create("/shots/second.png", "two");
    tick(&mut listener, &disk, &mut events, &mut stop);
    assert_eq!(events.len(), 2);

    let (state, reported) = run(
        MenuState::new(),
        vec![MenuEvent::Selected(Some(0)), MenuEvent::Named("kept.png".to_string())],
        &mut disk,
        &notes,
        &mut events,
    );
    assert_eq!(
        state,
        MenuState::Listening(
            "/notes/A".to_string(),
            Some(Move::Confirming("/shots/first.png".to_string(), "/notes/A/img/kept.png".to_string())),
        )
    );
    let (state, reported_later) = run(
        state,
        vec![
            MenuEvent::Confirmed(false),
            MenuEvent::Named("moved.png".to_string()),
            MenuEvent::Confirmed(true),
        ],
        &mut disk,
        &notes,
        &mut events,
    );

    assert_eq!(state, MenuState::Listening("/notes/A".to_string(), None));
    assert!(reported.is_empty() && reported_later.is_empty());
    assert_eq!(disk.content("/shots/first.png"), Some("one"));
    assert_eq!(disk.content("/notes/A/img/kept.png"), None);
    assert_eq!(disk.content("/shots/second.png"), None);
    assert_eq!(disk.content("/notes/A/img/moved.png"), Some("two"));
    assert_eq!(disk.files.len(), 2);

    // the declined file is still there, and it is not reported again
    tick(&mut listener, &disk, &mut events, &mut stop);
    tick(&mut listener, &disk, &mut events, &mut stop);
    assert_eq!(events.try_receive(), Err(TryReceiveError::Empty));
}

#[test]
fn failed_renaming_leaves_the_file_and_the_workflow_goes_on() {
    let mut disk = Disk::new(&["/shots", "/notes", "/notes/A", "/notes/A/img"]);
    let notes = disk.notes("/notes");
    let mut listener = ScreenshotListener::new("/shots");
    let (mut events, mut stop) = listener.listen();
    tick(&mut listener, &disk, &mut events, &mut stop);
    disk.create("/shots/a.png", "a");
    tick(&mut listener, &disk, &mut events, &mut stop);

    // the img directory goes away after the choice
    let (state, _) =
        run(MenuState::new(), vec![MenuEvent::Selected(Some(0))], &mut disk, &notes, &mut events);
    disk.dirs.retain(|dir| dir != "/notes/A/img");
    let (state, reported) = run(
        state,
        vec![MenuEvent::Named("b.png".to_string()), MenuEvent::Confirmed(true)],
        &mut disk,
        &notes,
        &mut events,
    );

    assert_eq!(state, MenuState::Listening("/notes/A".to_string(), None));
    assert_eq!(
        reported,
        vec![MenuError::Rename(
            "/shots/a.png".to_string(),
            "/notes/A/img/b.png".to_string(),
            "/notes/A/img: no such directory".to_string(),
        )]
    );
    assert_eq!(disk.content("/shots/a.png"), Some("a"));
}

#[test]
fn discovery_on_disk_finds_the_directories_with_an_img_directory() {
    let mut disk = Disk::new(&[
        "/notes",
        "/notes/with",
        "/notes/with/img",
        "/notes/without",
        "/notes/without/pictures",
        "/notes/file",
        "/notes/deep",
        "/notes/deep/sub",
        "/notes/deep/sub/img",
    ]);
    disk.create("/notes/file/img", "not a directory");
    disk.create("/notes/img", "not a directory either");
    assert_eq!(disk.notes("/notes"), vec!["/notes/with".to_string()]);
}

#[test]
fn vanished_directory_ends_the_listener_and_then_the_workflow() {
    let mut disk = Disk::new(&["/shots", "/notes", "/notes/A", "/notes/A/img"]);
    let notes = disk.notes("/notes");
    let mut listener = ScreenshotListener::new("/shots");
    let (mut events, mut stop) = listener.listen();
    tick(&mut listener, &disk, &mut events, &mut stop);
    disk.dirs.retain(|dir| dir != "/shots");
    tick(&mut listener, &disk, &mut events, &mut stop);
    assert_eq!(listener.request(), ListenerRequest::Exit);
    events.drop_sender();

    let (state, reported) =
        run(MenuState::new(), vec![MenuEvent::Selected(Some(0))], &mut disk, &notes, &mut events);
    assert_eq!(state, MenuState::Stopped);
    assert_eq!(reported, vec![MenuError::ListenerDied]);
    assert!(listener.stop().is_err());
}
