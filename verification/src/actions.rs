//! The synchronization executor: what is to be done for each entry of the
//! resolved mapping, to install it or to take it away again.

use vstd::prelude::*;
use crate::file_actions::FileActions;
use crate::mapping::{FileEntry, Pair};
use crate::settings::SettingsView;
use crate::files::{is_same_file, same_target, Effect, EffectView, FileId};
use crate::terminal::Inputs;

verus! {

/// How much a line of the log matters. A line is written where its level is
/// not above the verbosity that was asked for.
#[derive(Clone, Copy, Debug, PartialEq, Eq, Structural)]
pub enum Log {
    Warning,
    Info,
    Debug,
    Trace,
}

/// The number of a level: the least verbosity at which its lines are written.
pub open spec fn level_of(level: Log) -> u8 {
    match level {
        Log::Warning => 1,
        Log::Info => 2,
        Log::Debug => 3,
        Log::Trace => 4,
    }
}

impl Log {
    /// The number of the level.
    pub fn level(&self) -> (res: u8)
        ensures
            res == level_of(*self),
    {
        match self {
            Log::Warning => 1,
            Log::Info => 2,
            Log::Debug => 3,
            Log::Trace => 4,
        }
    }

    /// The name of the level.
    pub fn label(&self) -> (res: String)
        ensures
            res@ == match *self {
                Log::Warning => "Warning"@,
                Log::Info => "Info"@,
                Log::Debug => "Debug"@,
                Log::Trace => "Trace"@,
            },
    {
        match self {
            Log::Warning => "Warning".to_owned(),
            Log::Info => "Info".to_owned(),
            Log::Debug => "Debug".to_owned(),
            Log::Trace => "Trace".to_owned(),
        }
    }
}

/// What was found on disk for one entry: where its source and its
/// destination lead, each followed through links, and whether the source is
/// a directory. A destination that leads nowhere does not exist.
#[derive(Clone, Copy, Debug)]
pub struct Observed {
    pub source: Option<FileId>,
    pub destination: Option<FileId>,
    pub source_is_dir: bool,
}

/// One step of what is decided for an entry, before the run's switches are applied.
#[derive(Clone, Debug, PartialEq, Eq)]
pub enum Step {
    /// A line for the log, with its level.
    Say(Log, String),
    /// A change to the file system.
    Do(Effect),
}

/// The mathematical value of a `Step`.
pub enum StepView {
    Say(Log, Seq<char>),
    Do(EffectView),
}

impl View for Step {
    type V = StepView;

    open spec fn view(&self) -> StepView {
        match self {
            Step::Say(level, text) => StepView::Say(*level, text@),
            Step::Do(effect) => StepView::Do(effect@),
        }
    }
}

/// The views of the steps of `v`.
pub open spec fn step_views(v: Seq<Step>) -> Seq<StepView> {
    v.map_values(|s: Step| s@)
}

/// One thing for the caller to carry out.
#[derive(Clone, Debug, PartialEq, Eq)]
pub enum Event {
    /// Write the line.
    Line(String),
    /// Make the change.
    Run(Effect),
}

/// The mathematical value of an `Event`.
pub enum EventView {
    Line(Seq<char>),
    Run(EffectView),
}

impl View for Event {
    type V = EventView;

    open spec fn view(&self) -> EventView {
        match self {
            Event::Line(text) => EventView::Line(text@),
            Event::Run(effect) => EventView::Run(effect@),
        }
    }
}

/// The views of the events of `v`.
pub open spec fn event_views(v: Seq<Event>) -> Seq<EventView> {
    v.map_values(|e: Event| e@)
}

/// Whether a line of this level is written: its level is not above the
/// verbosity, or the run is a dry run, which writes every line.
pub open spec fn written(level: Log, verbose: u8, dry_run: bool) -> bool {
    level_of(level) <= verbose || dry_run
}

/// The steps as the run's switches let them through: a line stays where it
/// is written, a change stays unless the run is a dry run.
pub open spec fn gated(steps: Seq<StepView>, verbose: u8, dry_run: bool) -> Seq<EventView>
    decreases steps.len(),
{
    if steps.len() == 0 {
        Seq::empty()
    } else {
        let before = gated(steps.drop_last(), verbose, dry_run);
        match steps.last() {
            StepView::Say(level, text) => if written(level, verbose, dry_run) {
                before.push(EventView::Line(text))
            } else {
                before
            },
            StepView::Do(effect) => if dry_run {
                before
            } else {
                before.push(EventView::Run(effect))
            },
        }
    }
}

/// A path between double quotes.
pub open spec fn quoted(path: Seq<char>) -> Seq<char> {
    "\""@ + path + "\""@
}

/// A source and its destination, as the log names them.
pub open spec fn arrow(source: Seq<char>, key: Seq<char>) -> Seq<char> {
    quoted(source) + " -> "@ + quoted(key)
}

/// The question that is asked before an install replaces what stands at a key.
pub open spec fn overwrite_question(key: Seq<char>) -> Seq<char> {
    "Overwrite? "@ + key
}

/// The question that is asked before an uninstall deletes what it does not manage.
pub open spec fn delete_question(key: Seq<char>) -> Seq<char> {
    "File "@ + key + " is different from the managed by paro, delete anyway?"@
}

/// What is decided for one entry.
pub enum Verdict {
    /// These steps are taken.
    Proceed(Seq<StepView>),
    /// The person is asked this question first.
    Ask(Seq<char>),
}

/// What an install decides for an entry before anybody is asked.
pub open spec fn install_verdict(force: bool, key: Seq<char>, source: Seq<char>, seen: Observed) -> Verdict {
    if same_target(seen.source, seen.destination) {
        Verdict::Proceed(seq![StepView::Say(Log::Debug, "keeping current "@ + quoted(key))])
    } else if seen.source_is_dir {
        if seen.destination is None {
            Verdict::Proceed(
                seq![StepView::Say(Log::Info, "mkdir "@ + quoted(key)), StepView::Do(EffectView::CreateDir(key))],
            )
        } else {
            Verdict::Proceed(Seq::empty())
        }
    } else if force {
        Verdict::Proceed(
            seq![
                StepView::Say(Log::Warning, "overwrite "@ + arrow(source, key)),
                StepView::Do(EffectView::ForceDelete(key)),
                StepView::Do(EffectView::Symlink { origin: source, link: key }),
            ],
        )
    } else if seen.destination is Some {
        Verdict::Ask(overwrite_question(key))
    } else {
        Verdict::Proceed(linking(key, source))
    }
}

/// The steps that make the link of an entry.
pub open spec fn linking(key: Seq<char>, source: Seq<char>) -> Seq<StepView> {
    seq![
        StepView::Say(Log::Info, "linking "@ + arrow(source, key)),
        StepView::Do(EffectView::Symlink { origin: source, link: key }),
    ]
}

/// What an install does once the person has answered: yes deletes what
/// stands at the key and makes the link, no keeps what stands there, and
/// leaving ends the run.
pub open spec fn install_answered(key: Seq<char>, source: Seq<char>, answer: Inputs) -> Seq<StepView> {
    match answer {
        Inputs::Exit => seq![StepView::Say(Log::Trace, "Exiting"@)],
        Inputs::No => seq![StepView::Say(Log::Debug, "keeping current "@ + quoted(key))],
        Inputs::Yes => seq![
            StepView::Say(Log::Warning, "deleting existing "@ + quoted(key)),
            StepView::Do(EffectView::Delete(key)),
        ] + linking(key, source),
    }
}

/// What an uninstall decides for an entry before anybody is asked.
pub open spec fn uninstall_verdict(force: bool, key: Seq<char>, source: Seq<char>, seen: Observed) -> Verdict {
    if same_target(seen.source, seen.destination) {
        Verdict::Proceed(
            seq![StepView::Say(Log::Warning, "deleting current "@ + quoted(key)), StepView::Do(EffectView::Delete(key))],
        )
    } else if seen.source_is_dir {
        Verdict::Proceed(seq![StepView::Say(Log::Debug, "not deleting folders "@ + quoted(key))])
    } else if force {
        Verdict::Proceed(
            seq![
                StepView::Say(Log::Warning, "force deleting "@ + arrow(source, key)),
                StepView::Do(EffectView::ForceDelete(key)),
            ],
        )
    } else if seen.destination is Some {
        Verdict::Ask(delete_question(key))
    } else {
        Verdict::Proceed(seq![StepView::Say(Log::Info, "keeping current "@ + quoted(key))])
    }
}

/// What an uninstall does once the person has answered: yes deletes what
/// stands at the key, no keeps it, and leaving ends the run.
pub open spec fn uninstall_answered(key: Seq<char>, answer: Inputs) -> Seq<StepView> {
    match answer {
        Inputs::Exit => seq![StepView::Say(Log::Trace, "Exiting"@)],
        Inputs::Yes => seq![
            StepView::Say(Log::Warning, "deleting existing "@ + quoted(key)),
            StepView::Do(EffectView::Delete(key)),
        ],
        Inputs::No => seq![
            StepView::Say(Log::Debug, "not deleting existing "@ + quoted(key)),
            StepView::Say(Log::Info, "keeping current "@ + quoted(key)),
        ],
    }
}

/// A path between double quotes.
pub fn quote(path: &str) -> (res: String)
    ensures
        res@ == quoted(path@),
{
    "\"".to_owned().concat(path).concat("\"")
}

/// A line of the log that speaks of a key.
fn say_key(level: Log, lead: &str, key: &str) -> (res: Step)
    ensures
        res@ == StepView::Say(level, lead@ + quoted(key@)),
{
    let quoted_key = quote(key);
    Step::Say(level, lead.to_owned().concat(quoted_key.as_str()))
}

/// A line of the log that speaks of a source and its key.
fn say_arrow(level: Log, lead: &str, source: &str, key: &str) -> (res: Step)
    ensures
        res@ == StepView::Say(level, lead@ + arrow(source@, key@)),
{
    let from = quote(source);
    let to = quote(key);
    let text = lead.to_owned().concat(from.as_str()).concat(" -> ").concat(to.as_str());
    assert(text@ =~= lead@ + arrow(source@, key@));
    Step::Say(level, text)
}

/// The steps that make the link of an entry.
fn link_steps(key: &str, source: &str) -> (res: Vec<Step>)
    ensures
        step_views(res@) == linking(key@, source@),
{
    let res = vec![
        say_arrow(Log::Info, "linking ", source, key),
        Step::Do(Effect::Symlink { origin: source.to_owned(), link: key.to_owned() }),
    ];
    assert(step_views(res@) =~= linking(key@, source@));
    res
}

/// What is decided for one entry, as a value of the program.
#[derive(Clone, Debug, PartialEq, Eq)]
pub enum Decision {
    /// These steps are taken.
    Proceed(Vec<Step>),
    /// The person is asked this question first.
    Ask(String),
}

impl View for Decision {
    type V = Verdict;

    open spec fn view(&self) -> Verdict {
        match self {
            Decision::Proceed(steps) => Verdict::Proceed(step_views(steps@)),
            Decision::Ask(question) => Verdict::Ask(question@),
        }
    }
}

/// Decides what an install does for one entry.
pub fn decide_up(force: bool, key: &str, source: &str, seen: &Observed) -> (res: Decision)
    ensures
        res@ == install_verdict(force, key@, source@, *seen),
{
    if is_same_file(seen.source, seen.destination) {
        let steps = vec![say_key(Log::Debug, "keeping current ", key)];
        assert(step_views(steps@) =~= seq![StepView::Say(Log::Debug, "keeping current "@ + quoted(key@))]);
        Decision::Proceed(steps)
    } else if seen.source_is_dir {
        if seen.destination.is_none() {
            let steps = vec![say_key(Log::Info, "mkdir ", key), Step::Do(Effect::CreateDir(key.to_owned()))];
            assert(step_views(steps@) =~= seq![
                StepView::Say(Log::Info, "mkdir "@ + quoted(key@)),
                StepView::Do(EffectView::CreateDir(key@)),
            ]);
            Decision::Proceed(steps)
        } else {
            let steps: Vec<Step> = Vec::new();
            assert(step_views(steps@) =~= Seq::<StepView>::empty());
            Decision::Proceed(steps)
        }
    } else if force {
        let steps = vec![
            say_arrow(Log::Warning, "overwrite ", source, key),
            Step::Do(Effect::ForceDelete(key.to_owned())),
            Step::Do(Effect::Symlink { origin: source.to_owned(), link: key.to_owned() }),
        ];
        assert(step_views(steps@) =~= seq![
            StepView::Say(Log::Warning, "overwrite "@ + arrow(source@, key@)),
            StepView::Do(EffectView::ForceDelete(key@)),
            StepView::Do(EffectView::Symlink { origin: source@, link: key@ }),
        ]);
        Decision::Proceed(steps)
    } else if seen.destination.is_some() {
        Decision::Ask("Overwrite? ".to_owned().concat(key))
    } else {
        Decision::Proceed(link_steps(key, source))
    }
}

/// The steps of an install for one entry once the person has answered.
pub fn answer_up(key: &str, source: &str, answer: Inputs) -> (res: Vec<Step>)
    ensures
        step_views(res@) == install_answered(key@, source@, answer),
{
    match answer {
        Inputs::Exit => {
            let steps = vec![Step::Say(Log::Trace, "Exiting".to_owned())];
            assert(step_views(steps@) =~= seq![StepView::Say(Log::Trace, "Exiting"@)]);
            steps
        },
        Inputs::No => {
            let steps = vec![say_key(Log::Debug, "keeping current ", key)];
            assert(step_views(steps@) =~= seq![StepView::Say(Log::Debug, "keeping current "@ + quoted(key@))]);
            steps
        },
        Inputs::Yes => {
            let mut steps = vec![
                say_key(Log::Warning, "deleting existing ", key),
                Step::Do(Effect::Delete(key.to_owned())),
            ];
            let ghost head = step_views(steps@);
            assert(head =~= seq![
                StepView::Say(Log::Warning, "deleting existing "@ + quoted(key@)),
                StepView::Do(EffectView::Delete(key@)),
            ]);
            let mut link = link_steps(key, source);
            steps.append(&mut link);
            assert(step_views(steps@) =~= head + linking(key@, source@));
            steps
        },
    }
}

/// Decides what an uninstall does for one entry.
pub fn decide_down(force: bool, key: &str, source: &str, seen: &Observed) -> (res: Decision)
    ensures
        res@ == uninstall_verdict(force, key@, source@, *seen),
{
    if is_same_file(seen.source, seen.destination) {
        let steps = vec![say_key(Log::Warning, "deleting current ", key), Step::Do(Effect::Delete(key.to_owned()))];
        assert(step_views(steps@) =~= seq![
            StepView::Say(Log::Warning, "deleting current "@ + quoted(key@)),
            StepView::Do(EffectView::Delete(key@)),
        ]);
        Decision::Proceed(steps)
    } else if seen.source_is_dir {
        let steps = vec![say_key(Log::Debug, "not deleting folders ", key)];
        assert(step_views(steps@) =~= seq![StepView::Say(Log::Debug, "not deleting folders "@ + quoted(key@))]);
        Decision::Proceed(steps)
    } else if force {
        let steps = vec![
            say_arrow(Log::Warning, "force deleting ", source, key),
            Step::Do(Effect::ForceDelete(key.to_owned())),
        ];
        assert(step_views(steps@) =~= seq![
            StepView::Say(Log::Warning, "force deleting "@ + arrow(source@, key@)),
            StepView::Do(EffectView::ForceDelete(key@)),
        ]);
        Decision::Proceed(steps)
    } else if seen.destination.is_some() {
        let question = "File ".to_owned().concat(key).concat(" is different from the managed by paro, delete anyway?");
        Decision::Ask(question)
    } else {
        let steps = vec![say_key(Log::Info, "keeping current ", key)];
        assert(step_views(steps@) =~= seq![StepView::Say(Log::Info, "keeping current "@ + quoted(key@))]);
        Decision::Proceed(steps)
    }
}

/// The steps of an uninstall for one entry once the person has answered.
pub fn answer_down(key: &str, answer: Inputs) -> (res: Vec<Step>)
    ensures
        step_views(res@) == uninstall_answered(key@, answer),
{
    match answer {
        Inputs::Exit => {
            let steps = vec![Step::Say(Log::Trace, "Exiting".to_owned())];
            assert(step_views(steps@) =~= seq![StepView::Say(Log::Trace, "Exiting"@)]);
            steps
        },
        Inputs::Yes => {
            let steps = vec![
                say_key(Log::Warning, "deleting existing ", key),
                Step::Do(Effect::Delete(key.to_owned())),
            ];
            assert(step_views(steps@) =~= seq![
                StepView::Say(Log::Warning, "deleting existing "@ + quoted(key@)),
                StepView::Do(EffectView::Delete(key@)),
            ]);
            steps
        },
        Inputs::No => {
            let steps = vec![
                say_key(Log::Debug, "not deleting existing ", key),
                say_key(Log::Info, "keeping current ", key),
            ];
            assert(step_views(steps@) =~= seq![
                StepView::Say(Log::Debug, "not deleting existing "@ + quoted(key@)),
                StepView::Say(Log::Info, "keeping current "@ + quoted(key@)),
            ]);
            steps
        },
    }
}

/// A copy of an effect.
pub fn clone_effect(effect: &Effect) -> (res: Effect)
    ensures
        res@ == effect@,
{
    match effect {
        Effect::CreateDir(p) => Effect::CreateDir(p.clone()),
        Effect::Symlink { origin, link } => Effect::Symlink { origin: origin.clone(), link: link.clone() },
        Effect::Delete(p) => Effect::Delete(p.clone()),
        Effect::ForceDelete(p) => Effect::ForceDelete(p.clone()),
    }
}

/// Lets the steps through the run's switches: the single gate before the
/// log and before every change.
pub fn gate(steps: &Vec<Step>, verbose: u8, dry_run: bool) -> (res: Vec<Event>)
    ensures
        event_views(res@) == gated(step_views(steps@), verbose, dry_run),
{
    let mut res: Vec<Event> = Vec::new();
    let ghost all = step_views(steps@);
    let mut i: usize = 0;
    assert(all.subrange(0, 0) =~= Seq::<StepView>::empty());
    assert(event_views(res@) =~= Seq::<EventView>::empty());
    while i < steps.len()
        invariant
            i <= steps.len(),
            all == step_views(steps@),
            event_views(res@) == gated(all.subrange(0, i as int), verbose, dry_run),
        decreases steps.len() - i,
    {
        let ghost upto = all.subrange(0, i + 1);
        assert(upto.drop_last() =~= all.subrange(0, i as int));
        assert(upto.last() == steps@[i as int]@);
        let ghost before = event_views(res@);
        match &steps[i] {
            Step::Say(level, text) => {
                if level.level() <= verbose || dry_run {
                    res.push(Event::Line(text.clone()));
                    assert(event_views(res@) =~= before.push(EventView::Line(text@)));
                }
            },
            Step::Do(effect) => {
                if !dry_run {
                    res.push(Event::Run(clone_effect(effect)));
                    assert(event_views(res@) =~= before.push(EventView::Run(effect@)));
                }
            },
        }
        i = i + 1;
    }
    assert(all.subrange(0, steps.len() as int) =~= all);
    res
}


/// What one turn of the executor asks of the caller.
#[derive(Clone, Debug, PartialEq, Eq)]
pub enum Turn {
    /// No entry is left, or the person has left the run.
    Finished,
    /// Put this question to the person, and take the turn again with the answer.
    Ask(String),
    /// Carry these out, in order.
    Apply(Vec<Event>),
}

/// The mathematical value of a `Turn`.
pub enum TurnView {
    Finished,
    Ask(Seq<char>),
    Apply(Seq<EventView>),
}

impl View for Turn {
    type V = TurnView;

    open spec fn view(&self) -> TurnView {
        match self {
            Turn::Finished => TurnView::Finished,
            Turn::Ask(question) => TurnView::Ask(question@),
            Turn::Apply(events) => TurnView::Apply(event_views(events@)),
        }
    }
}

/// What is decided for an entry in the given direction before anybody is asked.
pub open spec fn verdict_of(down: bool, force: bool, pair: Pair, seen: Observed) -> Verdict {
    if down {
        uninstall_verdict(force, pair.0, pair.1.path, seen)
    } else {
        install_verdict(force, pair.0, pair.1.path, seen)
    }
}

/// What is done for an entry in the given direction once the person has answered.
pub open spec fn answered_of(down: bool, pair: Pair, answer: Inputs) -> Seq<StepView> {
    if down {
        uninstall_answered(pair.0, answer)
    } else {
        install_answered(pair.0, pair.1.path, answer)
    }
}

/// The turn that is taken for an entry. Where a question is open and no
/// answer is at hand, the turn asks; else it hands out what was decided,
/// let through the run's switches.
pub open spec fn turn_of(down: bool, settings: SettingsView, pair: Pair, seen: Observed, answer: Option<Inputs>) -> TurnView {
    match verdict_of(down, settings.force, pair, seen) {
        Verdict::Proceed(steps) => TurnView::Apply(gated(steps, settings.verbose, settings.dry_run)),
        Verdict::Ask(question) => match answer {
            None => TurnView::Ask(question),
            Some(given) => TurnView::Apply(gated(answered_of(down, pair, given), settings.verbose, settings.dry_run)),
        },
    }
}

/// Whether the turn for an entry ends the run: a question was open, and the
/// person chose to leave.
pub open spec fn leaves(down: bool, force: bool, pair: Pair, seen: Observed, answer: Option<Inputs>) -> bool {
    verdict_of(down, force, pair, seen) is Ask && answer == Some(Inputs::Exit)
}

/// The executor: the resolved mapping, and how far the run has come in it.
#[derive(Debug)]
pub struct Actions {
    pub file_actions: FileActions,
    /// How many entries have had their turn.
    pub position: usize,
    /// Whether the person has left the run.
    pub stopped: bool,
}

impl Actions {
    /// How many entries have had their turn.
    pub open spec fn visited(&self) -> nat {
        self.position as nat
    }

    /// Whether the person has left the run.
    pub open spec fn left(&self) -> bool {
        self.stopped
    }

    /// Whether no turn is left to take.
    pub open spec fn finished(&self) -> bool {
        self.left() || self.visited() >= self.file_actions.actions.entries().len()
    }

    /// The entry whose turn it is.
    pub open spec fn pending(&self) -> Pair
        recommends
            !self.finished(),
    {
        self.file_actions.actions.entries()[self.visited() as int]
    }

    /// An executor at the start of the mapping.
    pub fn new(file_actions: FileActions) -> (res: Actions)
        ensures
            res.file_actions == file_actions,
            res.visited() == 0,
            !res.left(),
    {
        Actions { file_actions, position: 0, stopped: false }
    }

    /// The key and the entry whose turn it is, if a turn is left to take.
    pub fn current(&self) -> (res: Option<(&String, &FileEntry)>)
        ensures
            res is None <==> self.finished(),
            res matches Some(pair) ==> (pair.0@, pair.1@) == self.pending(),
    {
        if self.stopped || self.position >= self.file_actions.actions.len() {
            None
        } else {
            Some((self.file_actions.actions.key_at(self.position), self.file_actions.actions.entry_at(self.position)))
        }
    }

    /// Takes one turn in the given direction.
    fn turn(&mut self, down: bool, seen: &Observed, answer: Option<Inputs>) -> (res: Turn)
        ensures
            final(self).file_actions == old(self).file_actions,
            old(self).finished() ==> res@ == TurnView::Finished && final(self).visited() == old(self).visited()
                && final(self).left() == old(self).left(),
            !old(self).finished() ==> res@ == turn_of(down, old(self).file_actions.settings@, old(self).pending(), *seen, answer),
            !old(self).finished() ==> final(self).visited() == old(self).visited() + (if res is Apply {
                1nat
            } else {
                0nat
            }),
            !old(self).finished() ==> final(self).left() == leaves(
                down,
                old(self).file_actions.settings.force,
                old(self).pending(),
                *seen,
                answer,
            ),
    {
        let n = self.file_actions.actions.len();
        if self.stopped || self.position >= n {
            return Turn::Finished;
        }
        let force = self.file_actions.settings.force;
        let verbose = self.file_actions.settings.verbose;
        let dry_run = self.file_actions.settings.dry_run;
        let key = self.file_actions.actions.key_at(self.position);
        let entry = self.file_actions.actions.entry_at(self.position);
        let decision = if down {
            decide_down(force, key.as_str(), entry.path.as_str(), seen)
        } else {
            decide_up(force, key.as_str(), entry.path.as_str(), seen)
        };
        match decision {
            Decision::Proceed(steps) => {
                let events = gate(&steps, verbose, dry_run);
                self.position = self.position + 1;
                Turn::Apply(events)
            },
            Decision::Ask(question) => {
                match answer {
                    None => Turn::Ask(question),
                    Some(given) => {
                        let steps = if down {
                            answer_down(key.as_str(), given)
                        } else {
                            answer_up(key.as_str(), entry.path.as_str(), given)
                        };
                        let events = gate(&steps, verbose, dry_run);
                        self.position = self.position + 1;
                        self.stopped = given == Inputs::Exit;
                        Turn::Apply(events)
                    },
                }
            },
        }
    }

    /// Takes one turn of an install: decides, from what was found on disk
    /// for the entry whose turn it is, what is to be done for it.
    pub fn up(&mut self, seen: &Observed, answer: Option<Inputs>) -> (res: Turn)
        ensures
            final(self).file_actions == old(self).file_actions,
            old(self).finished() ==> res@ == TurnView::Finished && final(self).visited() == old(self).visited()
                && final(self).left() == old(self).left(),
            !old(self).finished() ==> res@ == turn_of(false, old(self).file_actions.settings@, old(self).pending(), *seen, answer),
            !old(self).finished() ==> final(self).visited() == old(self).visited() + (if res is Apply {
                1nat
            } else {
                0nat
            }),
            !old(self).finished() ==> final(self).left() == leaves(
                false,
                old(self).file_actions.settings.force,
                old(self).pending(),
                *seen,
                answer,
            ),
    {
        self.turn(false, seen, answer)
    }

    /// Takes one turn of an uninstall: decides, from what was found on disk
    /// for the entry whose turn it is, what is to be done for it.
    pub fn down(&mut self, seen: &Observed, answer: Option<Inputs>) -> (res: Turn)
        ensures
            final(self).file_actions == old(self).file_actions,
            old(self).finished() ==> res@ == TurnView::Finished && final(self).visited() == old(self).visited()
                && final(self).left() == old(self).left(),
            !old(self).finished() ==> res@ == turn_of(true, old(self).file_actions.settings@, old(self).pending(), *seen, answer),
            !old(self).finished() ==> final(self).visited() == old(self).visited() + (if res is Apply {
                1nat
            } else {
                0nat
            }),
            !old(self).finished() ==> final(self).left() == leaves(
                true,
                old(self).file_actions.settings.force,
                old(self).pending(),
                *seen,
                answer,
            ),
    {
        self.turn(true, seen, answer)
    }

    /// Takes one turn in the direction that the configuration names.
    pub fn execute(&mut self, seen: &Observed, answer: Option<Inputs>) -> (res: Turn)
        ensures
            final(self).file_actions == old(self).file_actions,
            old(self).finished() ==> res@ == TurnView::Finished && final(self).visited() == old(self).visited()
                && final(self).left() == old(self).left(),
            !old(self).finished() ==> res@ == turn_of(
                old(self).file_actions.settings.down,
                old(self).file_actions.settings@,
                old(self).pending(),
                *seen,
                answer,
            ),
            !old(self).finished() ==> final(self).visited() == old(self).visited() + (if res is Apply {
                1nat
            } else {
                0nat
            }),
            !old(self).finished() ==> final(self).left() == leaves(
                old(self).file_actions.settings.down,
                old(self).file_actions.settings.force,
                old(self).pending(),
                *seen,
                answer,
            ),
    {
        let down = self.file_actions.settings.down;
        self.turn(down, seen, answer)
    }

    /// The line that opens the run: the direction it takes.
    pub fn announce(&self) -> (res: Vec<Event>)
        ensures
            event_views(res@) == gated(
                seq![StepView::Say(Log::Trace, if self.file_actions.settings.down {
                    "Down"@
                } else {
                    "Up"@
                })],
                self.file_actions.settings.verbose,
                self.file_actions.settings.dry_run,
            ),
    {
        let text = if self.file_actions.settings.down {
            "Down".to_owned()
        } else {
            "Up".to_owned()
        };
        let steps = vec![Step::Say(Log::Trace, text)];
        assert(step_views(steps@) =~= seq![StepView::Say(Log::Trace, text@)]);
        gate(&steps, self.file_actions.settings.verbose, self.file_actions.settings.dry_run)
    }
}


/// The lines among the events, in order.
pub open spec fn lines(events: Seq<EventView>) -> Seq<Seq<char>>
    decreases events.len(),
{
    if events.len() == 0 {
        Seq::empty()
    } else {
        match events.last() {
            EventView::Line(text) => lines(events.drop_last()).push(text),
            EventView::Run(_) => lines(events.drop_last()),
        }
    }
}

/// The changes among the events, in order.
pub open spec fn changes(events: Seq<EventView>) -> Seq<EffectView>
    decreases events.len(),
{
    if events.len() == 0 {
        Seq::empty()
    } else {
        match events.last() {
            EventView::Line(_) => changes(events.drop_last()),
            EventView::Run(effect) => changes(events.drop_last()).push(effect),
        }
    }
}

/// Every line of the steps, whatever its level.
pub open spec fn said(steps: Seq<StepView>) -> Seq<Seq<char>>
    decreases steps.len(),
{
    if steps.len() == 0 {
        Seq::empty()
    } else {
        match steps.last() {
            StepView::Say(_, text) => said(steps.drop_last()).push(text),
            StepView::Do(_) => said(steps.drop_last()),
        }
    }
}

/// Every change of the steps.
pub open spec fn wanted(steps: Seq<StepView>) -> Seq<EffectView>
    decreases steps.len(),
{
    if steps.len() == 0 {
        Seq::empty()
    } else {
        match steps.last() {
            StepView::Say(_, _) => wanted(steps.drop_last()),
            StepView::Do(effect) => wanted(steps.drop_last()).push(effect),
        }
    }
}

/// What passes the switches of a run. A dry run makes no change and writes
/// every line. Any other run makes every change, and writes every line
/// where the verbosity reaches the highest level.
pub proof fn lemma_gated(steps: Seq<StepView>, verbose: u8, dry_run: bool)
    ensures
        dry_run ==> changes(gated(steps, verbose, dry_run)) == Seq::<EffectView>::empty(),
        !dry_run ==> changes(gated(steps, verbose, dry_run)) == wanted(steps),
        dry_run || verbose >= level_of(Log::Trace) ==> lines(gated(steps, verbose, dry_run)) == said(steps),
    decreases steps.len(),
{
    if steps.len() > 0 {
        lemma_gated(steps.drop_last(), verbose, dry_run);
        let before = gated(steps.drop_last(), verbose, dry_run);
        match steps.last() {
            StepView::Say(level, text) => {
                if written(level, verbose, dry_run) {
                    assert(before.push(EventView::Line(text)).drop_last() =~= before);
                }
            },
            StepView::Do(effect) => {
                if !dry_run {
                    assert(before.push(EventView::Run(effect)).drop_last() =~= before);
                }
            },
        }
    }
}

/// A dry run says what a run would say and changes nothing: for the same
/// entry, found in the same state and given the same answer, both ask the
/// same question, or the dry run makes no change and writes the lines that
/// the run writes. The run is one that writes every line: one whose
/// verbosity reaches the highest level.
pub proof fn lemma_dry_run(down: bool, live: SettingsView, dry: SettingsView, pair: Pair, seen: Observed, answer: Option<Inputs>)
    requires
        !live.dry_run,
        live.verbose >= level_of(Log::Trace),
        dry.dry_run,
        dry.force == live.force,
    ensures
        match turn_of(down, live, pair, seen, answer) {
            TurnView::Ask(question) => turn_of(down, dry, pair, seen, answer) == TurnView::Ask(question),
            TurnView::Apply(events) => turn_of(down, dry, pair, seen, answer) matches TurnView::Apply(shown)
                && lines(shown) == lines(events) && changes(shown) == Seq::<EffectView>::empty(),
            TurnView::Finished => false,
        },
{
    match verdict_of(down, live.force, pair, seen) {
        Verdict::Proceed(steps) => {
            lemma_gated(steps, live.verbose, false);
            lemma_gated(steps, dry.verbose, true);
        },
        Verdict::Ask(_) => {
            if answer is Some {
                let steps = answered_of(down, pair, answer->0);
                lemma_gated(steps, live.verbose, false);
                lemma_gated(steps, dry.verbose, true);
            }
        },
    }
}

/// An install changes nothing at an entry that is linked already, nor at a
/// directory that exists: it takes its turn without a question and without
/// a change, whatever the switches of the run.
pub proof fn lemma_install_settled(settings: SettingsView, pair: Pair, seen: Observed, answer: Option<Inputs>)
    requires
        same_target(seen.source, seen.destination) || (seen.source_is_dir && seen.destination is Some),
    ensures
        turn_of(false, settings, pair, seen, answer) matches TurnView::Apply(events) && changes(events) == Seq::<
            EffectView,
        >::empty(),
{
    let steps = install_verdict(settings.force, pair.0, pair.1.path, seen)->Proceed_0;
    lemma_gated(steps, settings.verbose, settings.dry_run);
    if same_target(seen.source, seen.destination) {
        assert(steps.drop_last() =~= Seq::<StepView>::empty());
        assert(wanted(steps.drop_last()) == Seq::<EffectView>::empty());
    }
}

/// A question that is answered with no leaves the destination as it is: no
/// change is made, in an install and in an uninstall.
pub proof fn lemma_no_keeps(down: bool, settings: SettingsView, pair: Pair, seen: Observed)
    requires
        verdict_of(down, settings.force, pair, seen) is Ask,
    ensures
        turn_of(down, settings, pair, seen, Some(Inputs::No)) matches TurnView::Apply(events) && changes(events) == Seq::<
            EffectView,
        >::empty(),
{
    let steps = answered_of(down, pair, Inputs::No);
    lemma_gated(steps, settings.verbose, settings.dry_run);
    if down {
        assert(steps.drop_last().drop_last() =~= Seq::<StepView>::empty());
        assert(wanted(steps.drop_last().drop_last()) == Seq::<EffectView>::empty());
        assert(wanted(steps.drop_last()) == Seq::<EffectView>::empty());
    } else {
        assert(steps.drop_last() =~= Seq::<StepView>::empty());
        assert(wanted(steps.drop_last()) == Seq::<EffectView>::empty());
    }
}


} // verus!
