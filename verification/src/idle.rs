//! How long the user has been idle: what the desktop says, and where no desktop
//! says anything, when a device was last touched.

use crate::decimal::{parse, parsed};
use crate::span::{span_of, time_between, Span, SECOND_NANOS};
use crate::text::{begins_with, read_text, starts_with, text_of, texts, trim, trimmed, words, words_of};
use vstd::prelude::*;

verus! {

// ---------------------------------------------------------------------------
// Desktops
// ---------------------------------------------------------------------------

/// A desktop that may know how long the user has been idle.
#[derive(Clone, Copy, Debug, PartialEq, Eq, Structural)]
pub enum Query {
    Gnome,
    Kde,
    X11,
}

/// What follows from the reply of a desktop.
#[derive(Clone, Copy, Debug, PartialEq, Eq, Structural)]
pub enum Answer {
    /// The user has been idle for so long.
    Idle(Span),
    /// Another desktop is to be asked.
    Ask(Query),
    /// No desktop knows.
    Unavailable,
}

/// What follows from the reply of a desktop, an idle time in nanoseconds.
pub enum Told {
    Idle(nat),
    Ask(Query),
    Unavailable,
}

impl View for Answer {
    type V = Told;

    open spec fn view(&self) -> Told {
        match *self {
            Answer::Idle(t) => Told::Idle(t@),
            Answer::Ask(query) => Told::Ask(query),
            Answer::Unavailable => Told::Unavailable,
        }
    }
}

/// So many milliseconds, in nanoseconds.
pub open spec fn millis_read(ms: Option<nat>) -> Option<nat> {
    match ms {
        Some(ms) => Some(ms * 1_000_000),
        None => None,
    }
}

/// The nanoseconds that the user has been idle, in the reply of a desktop: Gnome and
/// KDE give a number as the last word, of milliseconds and of seconds; under X11 the
/// whole reply is a number of milliseconds.
pub open spec fn idle_in(query: Query, reply: Seq<char>) -> Option<nat> {
    match query {
        Query::Gnome => if words_of(reply).len() > 0 {
            millis_read(parsed(words_of(reply).last(), u64::MAX as nat))
        } else {
            None
        },
        Query::Kde => if words_of(reply).len() > 0 {
            match parsed(words_of(reply).last(), u32::MAX as nat) {
                Some(secs) => Some(secs * (SECOND_NANOS as nat)),
                None => None,
            }
        } else {
            None
        },
        Query::X11 => millis_read(parsed(trimmed(reply), u64::MAX as nat)),
    }
}

/// What follows from the reply of a desktop, or from its silence.
pub open spec fn answer_of(query: Query, reply: Option<Seq<char>>) -> Told {
    let idle = match reply {
        Some(s) => idle_in(query, s),
        None => None,
    };
    match idle {
        Some(t) => Told::Idle(t),
        None => match query {
            Query::Gnome => Told::Ask(Query::Kde),
            Query::Kde => Told::Ask(Query::X11),
            Query::X11 => Told::Unavailable,
        },
    }
}

fn last_word(s: &str) -> (r: Option<String>)
    ensures
        match r {
            Some(w) => words_of(s@).len() > 0 && w@ == words_of(s@).last(),
            None => words_of(s@).len() == 0,
        },
{
    let w = words(s);
    proof {
        assert(texts(w@) == words_of(s@));
    }
    if w.len() > 0 {
        proof {
            assert(texts(w@).last() == w@.last()@);
        }
        Some(w[w.len() - 1].clone())
    } else {
        None
    }
}

fn read_idle(query: Query, reply: &str) -> (r: Option<Span>)
    ensures
        span_of(r) == idle_in(query, reply@),
{
    match query {
        Query::Gnome => match last_word(reply) {
            Some(w) => match parse(w.as_str(), u64::MAX) {
                Some(ms) => Some(Span::from_millis(ms)),
                None => None,
            },
            None => None,
        },
        Query::Kde => match last_word(reply) {
            Some(w) => match parse(w.as_str(), u32::MAX as u64) {
                Some(secs) => Some(Span::from_secs(secs)),
                None => None,
            },
            None => None,
        },
        Query::X11 => match parse(trim(reply).as_str(), u64::MAX) {
            Some(ms) => Some(Span::from_millis(ms)),
            None => None,
        },
    }
}

/// The desktops, and whether it has turned out that none of them knows.
pub struct DesktopIdle {
    disabled: bool,
}

impl DesktopIdle {
    /// No desktop knows, so none is asked any more.
    pub closed spec fn given_up(self) -> bool {
        self.disabled
    }

    /// No desktop has been asked yet.
    pub fn new() -> (r: DesktopIdle)
        ensures
            !r.given_up(),
    {
        DesktopIdle { disabled: false }
    }

    /// The desktop to ask first.
    pub fn first(&self) -> (r: Option<Query>)
        ensures
            r == if self.given_up() {
                None
            } else {
                Some(Query::Gnome)
            },
    {
        if self.disabled {
            None
        } else {
            Some(Query::Gnome)
        }
    }

    /// What follows from the reply of a desktop, or from its silence. Once the last
    /// one does not know, none is asked any more.
    pub fn answer(&mut self, query: Query, reply: Option<&str>) -> (r: Answer)
        ensures
            r@ == answer_of(query, read_text(reply)),
            final(self).given_up() == (old(self).given_up() || r == Answer::Unavailable),
    {
        let idle: Option<Span> = match reply {
            Some(s) => read_idle(query, s),
            None => None,
        };
        match idle {
            Some(t) => Answer::Idle(t),
            None => match query {
                Query::Gnome => Answer::Ask(Query::Kde),
                Query::Kde => Answer::Ask(Query::X11),
                Query::X11 => {
                    self.disabled = true;
                    Answer::Unavailable
                },
            },
        }
    }
}

/// The program that asks a desktop.
pub open spec fn program(query: Query) -> Seq<char> {
    match query {
        Query::X11 => "xprintidle"@,
        _ => "busctl"@,
    }
}

/// The arguments of the program that asks a desktop.
pub open spec fn arguments(query: Query) -> Seq<Seq<char>> {
    match query {
        Query::Gnome => seq![
            "--user"@,
            "call"@,
            "org.gnome.Mutter.IdleMonitor"@,
            "/org/gnome/Mutter/IdleMonitor/Core"@,
            "org.gnome.Mutter.IdleMonitor"@,
            "GetIdletime"@,
        ],
        Query::Kde => seq![
            "--user"@,
            "call"@,
            "org.kde.Screensaver"@,
            "/ScreenSaver"@,
            "org.kde.Screensaver"@,
            "GetSessionIdleTime"@,
        ],
        Query::X11 => Seq::empty(),
    }
}

/// Texts with a space between each two.
pub open spec fn spaced(s: Seq<Seq<char>>) -> Seq<char>
    decreases s.len(),
{
    if s.len() == 0 {
        Seq::empty()
    } else if s.len() == 1 {
        s[0]
    } else {
        spaced(s.drop_last()) + " "@ + s.last()
    }
}

/// The command that asks a desktop: the program with its arguments, or where
/// another user has become the superuser, the same in that user's session.
pub open spec fn command_of(query: Query, sudo_user: Option<Seq<char>>) -> Seq<Seq<char>> {
    match sudo_user {
        Some(user) => seq![
            "sudo"@,
            "-u"@,
            user,
            "sh"@,
            "-c"@,
            "XDG_RUNTIME_DIR=/run/user/$(id -u "@ + user + ") DISPLAY=${DISPLAY:-:0} "@ + program(query) + " "@
                + spaced(arguments(query)),
        ],
        None => seq![program(query)] + arguments(query),
    }
}

fn arguments_for(query: Query) -> (r: Vec<String>)
    ensures
        texts(r@) == arguments(query),
{
    let mut r: Vec<String> = Vec::new();
    match query {
        Query::Gnome => {
            r.push("--user".to_owned());
            r.push("call".to_owned());
            r.push("org.gnome.Mutter.IdleMonitor".to_owned());
            r.push("/org/gnome/Mutter/IdleMonitor/Core".to_owned());
            r.push("org.gnome.Mutter.IdleMonitor".to_owned());
            r.push("GetIdletime".to_owned());
        },
        Query::Kde => {
            r.push("--user".to_owned());
            r.push("call".to_owned());
            r.push("org.kde.Screensaver".to_owned());
            r.push("/ScreenSaver".to_owned());
            r.push("org.kde.Screensaver".to_owned());
            r.push("GetSessionIdleTime".to_owned());
        },
        Query::X11 => {},
    }
    proof {
        assert(texts(r@) =~= arguments(query));
    }
    r
}

fn join_spaced(v: &Vec<String>) -> (s: String)
    ensures
        s@ == spaced(texts(v@)),
{
    let ghost all = texts(v@);
    let mut s = String::new();
    let mut i: usize = 0;
    proof {
        assert(all.take(0) =~= Seq::empty());
        assert(s@ =~= Seq::empty());
    }
    while i < v.len()
        invariant
            i <= v.len(),
            all == texts(v@),
            s@ == spaced(all.take(i as int)),
        decreases v.len() - i,
    {
        proof {
            assert(all.take(i + 1).drop_last() =~= all.take(i as int));
            assert(all.take(i + 1).last() == v@[i as int]@);
        }
        if i == 0 {
            proof {
                assert(all.take(1)[0] == v@[0]@);
            }
            s = v[0].clone();
        } else {
            s.append(" ");
            s.append(v[i].as_str());
        }
        i = i + 1;
    }
    proof {
        assert(all.take(all.len() as int) =~= all);
    }
    s
}

/// The command that asks a desktop, its program first.
pub fn command(query: Query, sudo_user: Option<&str>) -> (r: Vec<String>)
    ensures
        texts(r@) == command_of(query, read_text(sudo_user)),
{
    let name: &str = match query {
        Query::X11 => "xprintidle",
        _ => "busctl",
    };
    let args = arguments_for(query);
    let mut r: Vec<String> = Vec::new();
    match sudo_user {
        Some(user) => {
            let mut script = "XDG_RUNTIME_DIR=/run/user/$(id -u ".to_owned();
            script.append(user);
            script.append(") DISPLAY=${DISPLAY:-:0} ");
            script.append(name);
            script.append(" ");
            script.append(join_spaced(&args).as_str());
            r.push("sudo".to_owned());
            r.push("-u".to_owned());
            r.push(user.to_owned());
            r.push("sh".to_owned());
            r.push("-c".to_owned());
            r.push(script);
            proof {
                assert(texts(r@) =~= command_of(query, read_text(sudo_user)));
            }
        },
        None => {
            r.push(name.to_owned());
            let mut i: usize = 0;
            proof {
                assert(texts(r@) =~= seq![name@] + texts(args@).take(0));
            }
            while i < args.len()
                invariant
                    i <= args.len(),
                    texts(r@) == seq![name@] + texts(args@).take(i as int),
                decreases args.len() - i,
            {
                let ghost before = r@;
                r.push(args[i].clone());
                proof {
                    assert(texts(r@) =~= texts(before).push(args@[i as int]@));
                    assert(texts(args@).take(i + 1) =~= texts(args@).take(i as int).push(args@[i as int]@));
                }
                i = i + 1;
            }
            proof {
                assert(texts(args@).take(args.len() as int) =~= texts(args@));
            }
        },
    }
    r
}

// ---------------------------------------------------------------------------
// Devices
// ---------------------------------------------------------------------------

/// A file of a directory: its name, the bytes of its path, and where it is a
/// directory itself, its own files.
pub struct Listed {
    pub name: String,
    pub path: Vec<u8>,
    pub files: Vec<Listed>,
}

/// The paths of a file and of all files below it whose names begin so.
pub open spec fn paths_from(file: Listed, prefix: Seq<char>) -> Seq<Seq<u8>>
    decreases file, 0nat,
{
    let below = paths_with(file.files@, file.files@.len(), prefix);
    if begins_with(file.name@, prefix) {
        seq![file.path@] + below
    } else {
        below
    }
}

/// The paths of the first `n` files of a directory, and of all files below them,
/// whose names begin so.
pub open spec fn paths_with(files: Seq<Listed>, n: nat, prefix: Seq<char>) -> Seq<Seq<u8>>
    decreases files, n,
{
    if n == 0 || n > files.len() {
        Seq::empty()
    } else {
        paths_with(files, (n - 1) as nat, prefix) + paths_from(files[n - 1], prefix)
    }
}

/// The paths in a directory, at whatever depth, of the files whose names begin so.
pub open spec fn paths_in(files: Seq<Listed>, prefix: Seq<char>) -> Seq<Seq<u8>> {
    paths_with(files, files.len(), prefix)
}

/// The paths that tell of a user, at whatever depth: all input devices, all
/// terminals, and of the other devices the consoles.
pub open spec fn idle_paths(input: Seq<Listed>, terminals: Seq<Listed>, devices: Seq<Listed>) -> Seq<Seq<u8>> {
    paths_in(input, ""@) + paths_in(terminals, ""@) + paths_in(devices, "tty"@)
}

/// The bytes of these paths.
pub open spec fn bytes_of(paths: Seq<Vec<u8>>) -> Seq<Seq<u8>> {
    Seq::new(paths.len(), |i: int| paths[i]@)
}

fn copy_bytes(v: &Vec<u8>) -> (r: Vec<u8>)
    ensures
        r@ == v@,
{
    let mut r: Vec<u8> = Vec::new();
    let mut i: usize = 0;
    while i < v.len()
        invariant
            i <= v.len(),
            r@ == v@.take(i as int),
        decreases v.len() - i,
    {
        r.push(v[i]);
        proof {
            assert(v@.take(i + 1) =~= v@.take(i as int).push(v@[i as int]));
        }
        i = i + 1;
    }
    proof {
        assert(v@.take(v.len() as int) =~= v@);
    }
    r
}

fn add_path(paths: &mut Vec<Vec<u8>>, file: &Listed, prefix: &str)
    ensures
        bytes_of(final(paths)@) == bytes_of(old(paths)@) + paths_from(*file, prefix@),
    decreases *file, 0nat,
{
    let ghost start = bytes_of(paths@);
    if starts_with(file.name.as_str(), prefix) {
        paths.push(copy_bytes(&file.path));
        proof {
            assert(bytes_of(paths@) =~= start + seq![file.path@]);
        }
    }
    let ghost middle = bytes_of(paths@);
    let mut i: usize = 0;
    proof {
        assert(middle + paths_with(file.files@, 0, prefix@) =~= middle);
    }
    while i < file.files.len()
        invariant
            i <= file.files.len(),
            bytes_of(paths@) == middle + paths_with(file.files@, i as nat, prefix@),
        decreases file.files.len() - i,
    {
        proof {
            assert(decreases_to!(*file => file.files@[i as int]));
        }
        add_path(paths, &file.files[i], prefix);
        proof {
            assert(middle + paths_with(file.files@, (i + 1) as nat, prefix@) =~= (middle + paths_with(
                file.files@,
                i as nat,
                prefix@,
            )) + paths_from(file.files@[i as int], prefix@));
        }
        i = i + 1;
    }
    proof {
        assert(bytes_of(paths@) =~= start + paths_from(*file, prefix@));
    }
}

fn add_paths(paths: &mut Vec<Vec<u8>>, files: &Vec<Listed>, prefix: &str)
    ensures
        bytes_of(final(paths)@) == bytes_of(old(paths)@) + paths_in(files@, prefix@),
{
    let ghost start = bytes_of(paths@);
    let mut i: usize = 0;
    proof {
        assert(start + paths_with(files@, 0, prefix@) =~= start);
    }
    while i < files.len()
        invariant
            i <= files.len(),
            bytes_of(paths@) == start + paths_with(files@, i as nat, prefix@),
        decreases files.len() - i,
    {
        add_path(paths, &files[i], prefix);
        proof {
            assert(start + paths_with(files@, (i + 1) as nat, prefix@) =~= (start + paths_with(
                files@,
                i as nat,
                prefix@,
            )) + paths_from(files@[i as int], prefix@));
        }
        i = i + 1;
    }
}

/// What could be read of a path.
#[derive(Clone, Copy, Debug, PartialEq, Eq, Structural)]
pub enum Touch {
    /// The path is not there.
    Missing,
    /// The path is there, and nothing is said of its time.
    Timeless,
    /// The path was last touched at this time since the epoch.
    At(Span),
}

/// The latest of the times, in nanoseconds since the epoch; the epoch where there is
/// none.
pub open spec fn latest(touches: Seq<Touch>) -> nat
    decreases touches.len(),
{
    if touches.len() == 0 {
        0
    } else {
        let front = latest(touches.drop_last());
        match touches.last() {
            Touch::At(t) => if t@ > front {
                t@
            } else {
                front
            },
            _ => front,
        }
    }
}

/// The paths that tell of a user, and when the directory of input devices had last
/// changed when they were looked for.
pub struct UserIdleTracker {
    paths: Vec<Vec<u8>>,
    last_input_mtime: Span,
}

impl UserIdleTracker {
    /// The paths that tell of a user.
    pub closed spec fn watched(self) -> Seq<Seq<u8>> {
        bytes_of(self.paths@)
    }

    /// When the directory of input devices had last changed, in nanoseconds since the
    /// epoch.
    pub closed spec fn changed(self) -> nat {
        self.last_input_mtime@
    }

    /// A tracker of the paths in these directories.
    pub fn new(input: &Vec<Listed>, terminals: &Vec<Listed>, devices: &Vec<Listed>) -> (r: UserIdleTracker)
        ensures
            r.watched() == idle_paths(input@, terminals@, devices@),
            r.changed() == 0,
    {
        let mut r = UserIdleTracker { paths: Vec::new(), last_input_mtime: Span::from_secs(0) };
        r.discover_idle_paths(input, terminals, devices);
        r
    }

    /// The paths that tell of a user.
    pub fn paths(&self) -> (r: &Vec<Vec<u8>>)
        ensures
            bytes_of(r@) == self.watched(),
    {
        &self.paths
    }

    /// Looks for the paths anew.
    pub fn discover_idle_paths(&mut self, input: &Vec<Listed>, terminals: &Vec<Listed>, devices: &Vec<Listed>)
        ensures
            final(self).watched() == idle_paths(input@, terminals@, devices@),
            final(self).changed() == old(self).changed(),
    {
        let mut paths: Vec<Vec<u8>> = Vec::new();
        proof {
            assert(bytes_of(paths@) =~= Seq::empty());
        }
        add_paths(&mut paths, input, "");
        add_paths(&mut paths, terminals, "");
        add_paths(&mut paths, devices, "tty");
        proof {
            assert(bytes_of(paths@) =~= idle_paths(input@, terminals@, devices@));
        }
        self.paths = paths;
    }

    /// The directory of input devices changed at this time: says whether that is
    /// news, so that the paths are to be looked for anew.
    pub fn input_changed(&mut self, mtime: Span) -> (r: bool)
        ensures
            r == (mtime@ > old(self).changed()),
            final(self).changed() == if r {
                mtime@
            } else {
                old(self).changed()
            },
            final(self).watched() == old(self).watched(),
    {
        if mtime.exceeds(&self.last_input_mtime) {
            self.last_input_mtime = mtime;
            true
        } else {
            false
        }
    }

    /// When a path was last touched, of what was read of each, and whether one is
    /// missing, so that they are to be looked for anew.
    pub fn newest_touch(&self, touches: &Vec<Touch>) -> (r: (Span, bool))
        requires
            touches@.len() == self.watched().len(),
        ensures
            r.0@ == latest(touches@),
            r.1 == touches@.contains(Touch::Missing),
    {
        let mut newest: Span = Span::from_secs(0);
        let mut heal: bool = false;
        let mut i: usize = 0;
        proof {
            assert(touches@.take(0) =~= Seq::empty());
        }
        while i < touches.len()
            invariant
                i <= touches.len(),
                newest@ == latest(touches@.take(i as int)),
                heal == touches@.take(i as int).contains(Touch::Missing),
            decreases touches.len() - i,
        {
            let ghost before = touches@.take(i as int);
            let ghost after = touches@.take(i + 1);
            proof {
                assert(after.drop_last() =~= before);
                assert(after.last() == touches@[i as int]);
                if before.contains(Touch::Missing) {
                    let j = choose|j: int| 0 <= j < before.len() && before[j] == Touch::Missing;
                    assert(after[j] == Touch::Missing);
                }
                if after.contains(Touch::Missing) {
                    let j = choose|j: int| 0 <= j < after.len() && after[j] == Touch::Missing;
                    if j < i {
                        assert(before[j] == Touch::Missing);
                    }
                }
            }
            match touches[i] {
                Touch::At(t) => {
                    if t.exceeds(&newest) {
                        newest = t;
                    }
                },
                Touch::Timeless => {},
                Touch::Missing => {
                    proof {
                        assert(after[i as int] == Touch::Missing);
                    }
                    heal = true;
                },
            }
            i = i + 1;
        }
        proof {
            assert(touches@.take(touches.len() as int) =~= touches@);
        }
        (newest, heal)
    }

    /// The time for which the user has been idle: since the newest touch, and none
    /// where that is still to come.
    pub fn get_user_idle_time(newest: Span, now: Span) -> (r: Span)
        ensures
            r@ == time_between(newest@, now@),
    {
        now.beyond(&newest)
    }
}

// ---------------------------------------------------------------------------
// A round of asking
// ---------------------------------------------------------------------------

/// The files of the directories that tell of a user.
pub struct Devices {
    pub input: Vec<Listed>,
    pub terminals: Vec<Listed>,
    pub all: Vec<Listed>,
}

impl Devices {
    /// The paths that tell of a user.
    pub open spec fn watched(self) -> Seq<Seq<u8>> {
        idle_paths(self.input@, self.terminals@, self.all@)
    }
}

/// What happens in a round of asking how long the user has been idle.
pub enum IdleEvent {
    /// The idle time is wanted.
    Wanted,
    /// The desktop replied, or kept silent.
    Replied(Option<String>),
    /// The directory of input devices last changed then, since the epoch, where that
    /// can be read.
    Dated(Option<Span>),
    /// The directories hold these files.
    Found(Devices),
    /// What was read of each path that is watched, in their order.
    Touched(Vec<Touch>),
    /// It is this time since the epoch.
    Timed(Span),
}

/// What is to be done next in a round of asking.
#[derive(Clone, Copy, Debug, PartialEq, Eq, Structural)]
pub enum IdleAction {
    /// Nothing: the user has been idle for so long.
    Done(Span),
    /// Ask this desktop.
    Ask(Query),
    /// Read when the directory of input devices last changed.
    Date,
    /// List the directories.
    Look,
    /// Read each path that is watched.
    Touch,
    /// List the directories, for a path is missing; the newest touch was then.
    Heal(Span),
    /// Read the clock; the newest touch was then.
    Time(Span),
}

/// What is to be done next, times in nanoseconds.
pub enum Next {
    Done(nat),
    Ask(Query),
    Date,
    Look,
    Touch,
    Heal(nat),
    Time(nat),
}

impl View for IdleAction {
    type V = Next;

    open spec fn view(&self) -> Next {
        match *self {
            IdleAction::Done(t) => Next::Done(t@),
            IdleAction::Ask(query) => Next::Ask(query),
            IdleAction::Date => Next::Date,
            IdleAction::Look => Next::Look,
            IdleAction::Touch => Next::Touch,
            IdleAction::Heal(t) => Next::Heal(t@),
            IdleAction::Time(t) => Next::Time(t@),
        }
    }
}

/// What is known in a round of asking: the paths that are watched, when the directory
/// of input devices had last changed, whether no desktop is asked any more, and what
/// is to be done next.
#[verifier::ext_equal]
pub struct Round {
    pub watched: Seq<Seq<u8>>,
    pub changed: nat,
    pub given_up: bool,
    pub next: Next,
}

impl Round {
    /// The event is the one that what is to be done leads to.
    pub open spec fn awaits(self, event: IdleEvent) -> bool {
        match self.next {
            Next::Done(_) => event is Wanted,
            Next::Ask(_) => event is Replied,
            Next::Date => event is Dated,
            Next::Look | Next::Heal(_) => event is Found,
            Next::Touch => event matches IdleEvent::Touched(touches) && touches@.len() == self.watched.len(),
            Next::Time(_) => event is Timed,
        }
    }

    /// After what a desktop told: its answer ends the round, and where none knows, the
    /// devices are turned to.
    pub open spec fn after_reply(self, query: Query, reply: Option<Seq<char>>) -> Round {
        match answer_of(query, reply) {
            Told::Idle(t) => Round { next: Next::Done(t), ..self },
            Told::Ask(next) => Round { next: Next::Ask(next), ..self },
            Told::Unavailable => Round { given_up: true, next: Next::Date, ..self },
        }
    }

    /// After the time of the directory of input devices: where it is news, the paths
    /// are looked for anew.
    pub open spec fn after_date(self, mtime: Option<nat>) -> Round {
        match mtime {
            Some(t) => if t > self.changed {
                Round { changed: t, next: Next::Look, ..self }
            } else {
                Round { next: Next::Touch, ..self }
            },
            None => Round { next: Next::Touch, ..self },
        }
    }

    /// After what was read of each path: where one is missing, they are looked for
    /// anew before the newest touch counts.
    pub open spec fn after_touches(self, touches: Seq<Touch>) -> Round {
        Round {
            next: if touches.contains(Touch::Missing) {
                Next::Heal(latest(touches))
            } else {
                Next::Time(latest(touches))
            },
            ..self
        }
    }

    /// After an event; one that is not awaited changes nothing.
    pub open spec fn after(self, event: IdleEvent) -> Round {
        if !self.awaits(event) {
            self
        } else {
            match event {
                IdleEvent::Wanted => Round {
                    next: if self.given_up {
                        Next::Date
                    } else {
                        Next::Ask(Query::Gnome)
                    },
                    ..self
                },
                IdleEvent::Replied(reply) => self.after_reply(self.next->Ask_0, text_of(reply)),
                IdleEvent::Dated(mtime) => self.after_date(span_of(mtime)),
                IdleEvent::Found(devices) => Round {
                    watched: devices.watched(),
                    next: match self.next {
                        Next::Heal(newest) => Next::Time(newest),
                        _ => Next::Touch,
                    },
                    ..self
                },
                IdleEvent::Touched(touches) => self.after_touches(touches@),
                IdleEvent::Timed(now) => Round {
                    next: Next::Done(time_between(self.next->Time_0, now@)),
                    ..self
                },
            }
        }
    }
}

/// How long the user has been idle, asked for in rounds: the desktops come first, and
/// where none of them knows, the devices.
pub struct IdleWatch {
    desktop: DesktopIdle,
    tracker: UserIdleTracker,
    next: IdleAction,
}

impl View for IdleWatch {
    type V = Round;

    closed spec fn view(&self) -> Round {
        Round {
            watched: self.tracker.watched(),
            changed: self.tracker.changed(),
            given_up: self.desktop.given_up(),
            next: self.next@,
        }
    }
}

impl IdleWatch {
    /// A watch on the paths in these directories, before its first round.
    pub fn new(devices: &Devices) -> (r: IdleWatch)
        ensures
            r@ == (Round { watched: devices.watched(), changed: 0, given_up: false, next: Next::Done(0) }),
    {
        IdleWatch {
            desktop: DesktopIdle::new(),
            tracker: UserIdleTracker::new(&devices.input, &devices.terminals, &devices.all),
            next: IdleAction::Done(Span::from_secs(0)),
        }
    }

    /// The paths that are watched.
    pub fn paths(&self) -> (r: &Vec<Vec<u8>>)
        ensures
            bytes_of(r@) == self@.watched,
    {
        self.tracker.paths()
    }

    fn replied(&mut self, query: Query, reply: Option<String>)
        requires
            old(self)@.next == Next::Ask(query),
        ensures
            final(self)@ == old(self)@.after_reply(query, text_of(reply)),
    {
        let text: Option<&str> = match &reply {
            Some(s) => Some(s.as_str()),
            None => None,
        };
        self.next = match self.desktop.answer(query, text) {
            Answer::Idle(t) => IdleAction::Done(t),
            Answer::Ask(next) => IdleAction::Ask(next),
            Answer::Unavailable => IdleAction::Date,
        };
    }

    fn dated(&mut self, mtime: Option<Span>)
        ensures
            final(self)@ == old(self)@.after_date(span_of(mtime)),
    {
        let news: bool = match mtime {
            Some(t) => self.tracker.input_changed(t),
            None => false,
        };
        self.next = if news {
            IdleAction::Look
        } else {
            IdleAction::Touch
        };
    }

    fn touched(&mut self, touches: &Vec<Touch>)
        requires
            touches@.len() == old(self)@.watched.len(),
        ensures
            final(self)@ == old(self)@.after_touches(touches@),
    {
        let (newest, heal) = self.tracker.newest_touch(touches);
        self.next = if heal {
            IdleAction::Heal(newest)
        } else {
            IdleAction::Time(newest)
        };
    }

    /// Takes an event in and says what is to be done next: what it was before, where
    /// the event is not the one that is awaited.
    pub fn step(&mut self, event: IdleEvent) -> (r: IdleAction)
        ensures
            final(self)@ == old(self)@.after(event),
            r@ == final(self)@.next,
    {
        match (self.next, event) {
            (IdleAction::Done(_), IdleEvent::Wanted) => {
                self.next = match self.desktop.first() {
                    Some(query) => IdleAction::Ask(query),
                    None => IdleAction::Date,
                };
            },
            (IdleAction::Ask(query), IdleEvent::Replied(reply)) => self.replied(query, reply),
            (IdleAction::Date, IdleEvent::Dated(mtime)) => self.dated(mtime),
            (IdleAction::Look, IdleEvent::Found(devices)) => {
                self.tracker.discover_idle_paths(&devices.input, &devices.terminals, &devices.all);
                self.next = IdleAction::Touch;
            },
            (IdleAction::Touch, IdleEvent::Touched(touches)) => {
                let n: usize = self.paths().len();
                if touches.len() == n {
                    self.touched(&touches);
                }
            },
            (IdleAction::Heal(newest), IdleEvent::Found(devices)) => {
                self.tracker.discover_idle_paths(&devices.input, &devices.terminals, &devices.all);
                self.next = IdleAction::Time(newest);
            },
            (IdleAction::Time(newest), IdleEvent::Timed(now)) => {
                self.next = IdleAction::Done(UserIdleTracker::get_user_idle_time(newest, now));
            },
            _ => {},
        }
        self.next
    }
}

// ---------------------------------------------------------------------------
// Laws
// ---------------------------------------------------------------------------

/// A file whose name begins so is found at whatever depth: in its own directory, and
/// what is found in a directory is found in the one above it.
pub proof fn law_found_at_any_depth(files: Seq<Listed>, prefix: Seq<char>, i: int, path: Seq<u8>)
    requires
        0 <= i < files.len(),
    ensures
        begins_with(files[i].name@, prefix) ==> paths_in(files, prefix).contains(files[i].path@),
        paths_in(files[i].files@, prefix).contains(path) ==> paths_in(files, prefix).contains(path),
{
    let own = seq![files[i].path@];
    let rest = paths_in(files[i].files@, prefix);
    let found = paths_from(files[i], prefix);
    if begins_with(files[i].name@, prefix) {
        assert(found == own + rest);
        assert(found[0] == files[i].path@);
        lemma_paths_contained(files, files.len(), prefix, i, files[i].path@);
    }
    if rest.contains(path) {
        let k = choose|k: int| 0 <= k < rest.len() && rest[k] == path;
        if begins_with(files[i].name@, prefix) {
            assert(found[k + 1] == path);
        } else {
            assert(found[k] == path);
        }
        lemma_paths_contained(files, files.len(), prefix, i, path);
    }
}

proof fn lemma_paths_contained(files: Seq<Listed>, n: nat, prefix: Seq<char>, i: int, path: Seq<u8>)
    requires
        0 <= i < n <= files.len(),
        paths_from(files[i], prefix).contains(path),
    ensures
        paths_with(files, n, prefix).contains(path),
    decreases n,
{
    let front = paths_with(files, (n - 1) as nat, prefix);
    let last = paths_from(files[n - 1], prefix);
    let all = paths_with(files, n, prefix);
    assert(all == front + last);
    if i == n - 1 {
        let k = choose|k: int| 0 <= k < last.len() && last[k] == path;
        assert(all[front.len() + k] == path);
    } else {
        lemma_paths_contained(files, (n - 1) as nat, prefix, i, path);
        let k = choose|k: int| 0 <= k < front.len() && front[k] == path;
        assert(all[k] == path);
    }
}

/// The latest touch is not before any other, so the idle time is that since the
/// last of them.
pub proof fn law_no_touch_is_later(touches: Seq<Touch>, i: int)
    requires
        0 <= i < touches.len(),
    ensures
        touches[i] matches Touch::At(t) ==> t@ <= latest(touches),
    decreases touches.len(),
{
    if i < touches.len() - 1 {
        law_no_touch_is_later(touches.drop_last(), i);
        assert(touches.drop_last()[i] == touches[i]);
    }
}

/// Each desktop is asked at most once in a round: a question leads to an answer or to
/// the next desktop, and the last one leads to no other.
pub proof fn law_asking_ends(query: Query, reply: Option<Seq<char>>)
    ensures
        answer_of(query, reply) matches Told::Ask(next) ==> (query == Query::Gnome && next == Query::Kde) || (query
            == Query::Kde && next == Query::X11),
        answer_of(query, reply) == Told::Unavailable ==> query == Query::X11,
{
}

/// What a desktop answers ends the round, and leaves what is known of the devices as it
/// was.
pub proof fn law_desktop_comes_first(round: Round, query: Query, reply: Option<String>)
    requires
        round.next == Next::Ask(query),
    ensures
        answer_of(query, text_of(reply)) matches Told::Idle(idle) ==> round.after(IdleEvent::Replied(reply)) == (Round {
            next: Next::Done(idle),
            ..round
        }),
        round.after(IdleEvent::Replied(reply)).watched == round.watched,
        round.after(IdleEvent::Replied(reply)).changed == round.changed,
{
}

/// Once no desktop knows, none is asked in any later round.
pub proof fn law_given_up_for_good(round: Round, event: IdleEvent)
    requires
        round.given_up,
        round.next !is Ask,
    ensures
        round.after(event).given_up,
        round.after(event).next !is Ask,
{
}

/// The paths change only where the directories are listed, which they are when the
/// directory of input devices has changed and when a path is missing.
pub proof fn law_paths_change_when_looked_for(round: Round, event: IdleEvent)
    ensures
        round.after(event).watched != round.watched ==> (round.next is Look || round.next is Heal) && event is Found,
        round.after(event).next is Look && round.next !is Look ==> round.next is Date && round.after(event).changed
            > round.changed,
        round.after(event).next is Heal && round.next !is Heal ==> round.next is Touch && event is Touched && event->Touched_0@.contains(
            Touch::Missing,
        ),
        round.after(event).changed >= round.changed,
{
}

/// Where no desktop knows, the user has been idle since the latest touch of all paths
/// that are watched, whether or not they are looked for anew meanwhile.
pub proof fn law_idle_since_latest_touch(round: Round, touches: Vec<Touch>, devices: Devices, now: Span)
    requires
        round.next == Next::Touch,
        touches@.len() == round.watched.len(),
    ensures
        !touches@.contains(Touch::Missing) ==> round.after(IdleEvent::Touched(touches)).after(IdleEvent::Timed(now)) == (
        Round { next: Next::Done(time_between(latest(touches@), now@)), ..round }),
        touches@.contains(Touch::Missing) ==> round.after(IdleEvent::Touched(touches)).after(
            IdleEvent::Found(devices),
        ).after(IdleEvent::Timed(now)) == (Round {
            watched: devices.watched(),
            next: Next::Done(time_between(latest(touches@), now@)),
            ..round
        }),
{
}

/// How many events are still to come in a round, at most.
pub open spec fn events_left(next: Next) -> nat {
    match next {
        Next::Done(_) => 0,
        Next::Time(_) => 1,
        Next::Heal(_) => 2,
        Next::Touch => 3,
        Next::Look => 4,
        Next::Date => 5,
        Next::Ask(Query::X11) => 6,
        Next::Ask(Query::Kde) => 7,
        Next::Ask(Query::Gnome) => 8,
    }
}

/// A round ends: each event that is awaited brings it nearer to its end.
pub proof fn law_round_ends(round: Round, event: IdleEvent)
    requires
        round.awaits(event),
    ensures
        round.next !is Done ==> events_left(round.after(event).next) < events_left(round.next),
        round.next is Done ==> events_left(round.after(event).next) <= 8 && round.after(event).next !is Done,
{
}

} // verus!
