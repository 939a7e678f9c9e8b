use vstd::prelude::*;

use crate::text::{split_bar, split_stages, split_words, texts, trim, trimmed, words};

verus! {

/// One command of a pipeline: a program name and its arguments.
#[derive(Debug)]
pub struct Stage {
    pub program: Vec<char>,
    pub args: Vec<Vec<char>>,
}

/// The words of a stage, program name first.
pub open spec fn stage_words(st: Stage) -> Seq<Seq<char>> {
    seq![st.program@] + texts(st.args@)
}

/// The words of each stage of a submitted line.
pub open spec fn line_stages(line: Seq<char>) -> Seq<Seq<Seq<char>>> {
    split_bar(trimmed(line)).map_values(|st: Seq<char>| words(st))
}

/// Every stage of the line has a command word.
pub open spec fn line_parses(line: Seq<char>) -> bool {
    forall|i: int| 0 <= i < line_stages(line).len() ==> #[trigger] line_stages(line)[i].len() > 0
}

/// The stages of a pipeline as their words.
pub open spec fn stages_words(v: Seq<Stage>) -> Seq<Seq<Seq<char>>> {
    v.map_values(|st: Stage| stage_words(st))
}

/// Copy of `v[from..]`.
fn tail(v: &Vec<Vec<char>>, from: usize) -> (r: Vec<Vec<char>>)
    requires
        from <= v.len(),
    ensures
        texts(r@) == texts(v@).skip(from as int),
{
    let mut r: Vec<Vec<char>> = Vec::new();
    let mut i: usize = from;
    while i < v.len()
        invariant
            from <= i <= v.len(),
            texts(r@) == texts(v@).subrange(from as int, i as int),
        decreases v.len() - i,
    {
        let ghost before = texts(r@);
        r.push(crate::text::copy_text(&v[i]));
        assert(texts(r@) =~= before.push(v@[i as int]@));
        assert(texts(r@) =~= texts(v@).subrange(from as int, i + 1));
        i = i + 1;
    }
    assert(texts(v@).subrange(from as int, v.len() as int) =~= texts(v@).skip(from as int));
    r
}

/// Splits a submitted line into its stages: the trimmed line is cut at each
/// `" | "`, and each piece split into whitespace-separated words. Returns
/// `None` exactly when some piece has no word at all.
pub fn parse_pipeline(line: &Vec<char>) -> (r: Option<Vec<Stage>>)
    ensures
        r.is_some() <==> line_parses(line@),
        r.is_some() ==> stages_words(r.unwrap()@) == line_stages(line@),
{
    let t = trim(line);
    let pieces = split_stages(&t);
    let mut out: Vec<Stage> = Vec::new();
    let mut i: usize = 0;
    let ghost ls = line_stages(line@);
    assert(ls.len() == pieces.len());
    while i < pieces.len()
        invariant
            i <= pieces.len(),
            ls == line_stages(line@),
            ls.len() == pieces.len(),
            texts(pieces@) == split_bar(t@),
            t@ == trimmed(line@),
            forall|k: int| 0 <= k < i ==> #[trigger] ls[k].len() > 0,
            stages_words(out@) == ls.take(i as int),
        decreases pieces.len() - i,
    {
        let ws = split_words(&pieces[i]);
        assert(texts(ws@) == ls[i as int]) by {
            assert(texts(pieces@)[i as int] == pieces@[i as int]@);
        }
        if ws.len() == 0 {
            assert(!line_parses(line@)) by {
                assert(line_stages(line@)[i as int].len() == 0);
            }
            return None;
        }
        let program = crate::text::copy_text(&ws[0]);
        let args = tail(&ws, 1);
        let st = Stage { program, args };
        proof {
            assert(stage_words(st) =~= texts(ws@)) by {
                assert(texts(ws@)[0] == ws@[0]@);
            }
        }
        let ghost before = stages_words(out@);
        out.push(st);
        assert(stages_words(out@) =~= before.push(stage_words(st)));
        assert(ls.take(i + 1) =~= ls.take(i as int).push(ls[i as int]));
        i = i + 1;
    }
    assert(ls.take(i as int) =~= ls);
    Some(out)
}

/// Where a spawned program reads its input from.
#[derive(Clone, Copy, PartialEq, Eq, Structural, Debug)]
pub enum Source {
    /// The shell's own standard input.
    Terminal,
    /// The output of the previous stage's process.
    Previous,
}

/// Where a spawned program writes its output to.
#[derive(Clone, Copy, PartialEq, Eq, Structural, Debug)]
pub enum Sink {
    /// The shell's own standard output.
    Terminal,
    /// A pipe read by the next stage.
    Pipe,
}

/// What the caller must do next to run a pipeline.
#[derive(Debug)]
pub enum Action {
    /// Make the given path the working directory; report a failure.
    ChangeDir(Vec<char>),
    /// Start the program with these arguments and streams.
    Spawn { program: Vec<char>, args: Vec<Vec<char>>, input: Source, output: Sink },
    /// End the shell process.
    Exit,
    /// Wait for the last started process to end; the pipeline is done.
    Wait,
    /// The pipeline is done; nothing is left to wait for.
    Finish,
}

/// The mathematical counterpart of an `Action`.
pub ghost enum Step {
    ChangeDir(Seq<char>),
    Spawn(Seq<char>, Seq<Seq<char>>, Source, Sink),
    Exit,
    Wait,
    Finish,
}

impl View for Action {
    type V = Step;

    open spec fn view(&self) -> Step {
        match self {
            Action::ChangeDir(p) => Step::ChangeDir(p@),
            Action::Spawn { program, args, input, output } => Step::Spawn(
                program@,
                texts(args@),
                *input,
                *output,
            ),
            Action::Exit => Step::Exit,
            Action::Wait => Step::Wait,
            Action::Finish => Step::Finish,
        }
    }
}

/// What the caller reports back after doing an action.
#[derive(Clone, Copy, PartialEq, Eq, Structural, Debug)]
pub enum Event {
    /// Nothing was done yet.
    Start,
    /// The program of the last `Spawn` started.
    Spawned,
    /// The program of the last `Spawn` could not be started.
    SpawnFailed,
    /// The last `ChangeDir` was carried out, with success or not.
    Done,
}

/// The state of a running pipeline as plain values.
pub ghost struct RunModel {
    pub stages: Seq<Seq<Seq<char>>>,
    /// Index of the next stage to dispatch.
    pub next: int,
    /// A process of the previous stage is there to read from.
    pub chained: bool,
    /// The pipeline has ended (or the shell is to exit).
    pub stopped: bool,
}

pub open spec fn is_cd(w: Seq<char>) -> bool {
    w == seq!['c', 'd']
}

pub open spec fn is_exit(w: Seq<char>) -> bool {
    w == seq!['e', 'x', 'i', 't']
}

/// Where `cd` goes: its first argument, else the filesystem root.
pub open spec fn cd_target(args: Seq<Seq<char>>) -> Seq<char> {
    if args.len() > 0 {
        args[0]
    } else {
        seq!['/']
    }
}

/// The state after the caller's report on the last action.
pub open spec fn absorb(m: RunModel, ev: Event) -> RunModel {
    match ev {
        Event::Spawned => RunModel { chained: true, ..m },
        Event::SpawnFailed => RunModel { chained: false, ..m },
        _ => m,
    }
}

/// The next action from a state, and the state after it.
pub open spec fn decide(m: RunModel) -> (RunModel, Step) {
    if m.stopped {
        (m, Step::Finish)
    } else if m.next >= m.stages.len() {
        (RunModel { stopped: true, ..m }, if m.chained {
            Step::Wait
        } else {
            Step::Finish
        })
    } else {
        let ws = m.stages[m.next];
        let program = ws[0];
        let args = ws.drop_first();
        if is_cd(program) {
            (RunModel { next: m.next + 1, chained: false, ..m }, Step::ChangeDir(cd_target(args)))
        } else if is_exit(program) {
            (RunModel { stopped: true, ..m }, Step::Exit)
        } else {
            (RunModel { next: m.next + 1, ..m }, Step::Spawn(
                program,
                args,
                if m.chained {
                    Source::Previous
                } else {
                    Source::Terminal
                },
                if m.next + 1 < m.stages.len() {
                    Sink::Pipe
                } else {
                    Sink::Terminal
                },
            ))
        }
    }
}

/// One round: take the report, then decide.
pub open spec fn run_step(m: RunModel, ev: Event) -> (RunModel, Step) {
    decide(absorb(m, ev))
}

/// A pipeline at its start.
pub open spec fn start(stages: Seq<Seq<Seq<char>>>) -> RunModel {
    RunModel { stages, next: 0, chained: false, stopped: false }
}

/// Dispatches the stages of a pipeline one at a time.
pub struct Runner {
    stages: Vec<Stage>,
    next: usize,
    chained: bool,
    stopped: bool,
}

impl View for Runner {
    type V = RunModel;

    closed spec fn view(&self) -> RunModel {
        RunModel {
            stages: stages_words(self.stages@),
            next: self.next as int,
            chained: self.chained,
            stopped: self.stopped,
        }
    }
}

fn word_is(w: &Vec<char>, lit: &[char]) -> (r: bool)
    ensures
        r == (w@ == lit@),
{
    if w.len() != lit.len() {
        return false;
    }
    let mut i: usize = 0;
    while i < w.len()
        invariant
            i <= w.len() == lit@.len(),
            forall|k: int| 0 <= k < i ==> w@[k] == lit@[k],
        decreases w.len() - i,
    {
        if w[i] != lit[i] {
            return false;
        }
        i = i + 1;
    }
    assert(w@ =~= lit@);
    true
}

impl Runner {
    pub closed spec fn wf(&self) -> bool {
        self.next <= self.stages.len()
    }

    /// A runner for the given stages, before the first one.
    pub fn new(stages: Vec<Stage>) -> (r: Runner)
        ensures
            r.wf(),
            r@ == start(stages_words(stages@)),
    {
        Runner { stages, next: 0, chained: false, stopped: false }
    }

    /// Takes the report on the last action and returns the next one.
    pub fn step(&mut self, ev: Event) -> (r: Action)
        requires
            old(self).wf(),
        ensures
            final(self).wf(),
            (final(self)@, r@) == run_step(old(self)@, ev),
    {
        match ev {
            Event::Spawned => self.chained = true,
            Event::SpawnFailed => self.chained = false,
            _ => {},
        }
        if self.stopped {
            return Action::Finish;
        }
        if self.next >= self.stages.len() {
            self.stopped = true;
            return if self.chained {
                Action::Wait
            } else {
                Action::Finish
            };
        }
        let i = self.next;
        let ghost ws = stages_words(self.stages@)[i as int];
        assert(ws == stage_words(self.stages@[i as int]));
        assert(ws[0] == self.stages@[i as int].program@);
        assert(ws.drop_first() =~= texts(self.stages@[i as int].args@));
        let program = crate::text::copy_text(&self.stages[i].program);
        if word_is(&program, &['c', 'd']) {
            let args = &self.stages[i].args;
            let target = if args.len() > 0 {
                crate::text::copy_text(&args[0])
            } else {
                let mut root: Vec<char> = Vec::new();
                root.push('/');
                assert(root@ =~= seq!['/']);
                root
            };
            self.next = i + 1;
            self.chained = false;
            Action::ChangeDir(target)
        } else if word_is(&program, &['e', 'x', 'i', 't']) {
            self.stopped = true;
            Action::Exit
        } else {
            let args = tail(&self.stages[i].args, 0);
            assert(texts(self.stages@[i as int].args@).skip(0) =~= texts(self.stages@[i as int].args@));
            let input = if self.chained {
                Source::Previous
            } else {
                Source::Terminal
            };
            let output = if i + 1 < self.stages.len() {
                Sink::Pipe
            } else {
                Sink::Terminal
            };
            self.next = i + 1;
            Action::Spawn { program, args, input, output }
        }
    }
}

/// A stage that starts an outside program: it has a command word, and that
/// word is not a built-in.
pub open spec fn is_external(ws: Seq<Seq<char>>) -> bool {
    ws.len() > 0 && !is_cd(ws[0]) && !is_exit(ws[0])
}

/// In a pipeline `a | b | c` of outside programs that all start, `a` reads
/// the terminal and writes a pipe, `b` reads `a` and writes a pipe, `c`
/// reads `b` and writes the terminal, and then only the last process is
/// waited for.
pub proof fn lemma_three_stages(a: Seq<Seq<char>>, b: Seq<Seq<char>>, c: Seq<Seq<char>>)
    requires
        is_external(a),
        is_external(b),
        is_external(c),
    ensures
        ({
            let s1 = run_step(start(seq![a, b, c]), Event::Start);
            let s2 = run_step(s1.0, Event::Spawned);
            let s3 = run_step(s2.0, Event::Spawned);
            let s4 = run_step(s3.0, Event::Spawned);
            &&& s1.1 == Step::Spawn(a[0], a.drop_first(), Source::Terminal, Sink::Pipe)
            &&& s2.1 == Step::Spawn(b[0], b.drop_first(), Source::Previous, Sink::Pipe)
            &&& s3.1 == Step::Spawn(c[0], c.drop_first(), Source::Previous, Sink::Terminal)
            &&& s4.1 == Step::Wait
            &&& s4.0.stopped
        }),
{
}

/// `exit` ends the pipeline at once, whatever stages follow it: the caller
/// is told to exit, and from then on there is nothing more to do.
pub proof fn lemma_exit_ends(m: RunModel, ev: Event)
    requires
        !m.stopped,
        0 <= m.next < m.stages.len(),
        m.stages[m.next].len() > 0,
        is_exit(m.stages[m.next][0]),
    ensures
        run_step(m, ev).1 == Step::Exit,
        run_step(m, ev).0.stopped,
        forall|e: Event| #[trigger] run_step(run_step(m, ev).0, e).1 == Step::Finish,
{
    assert(!is_cd(m.stages[m.next][0])) by {
        assert(seq!['e', 'x', 'i', 't'].len() != seq!['c', 'd'].len());
    }
}

/// A program that could not be started gives the next stage nothing to
/// read: the next program reads the terminal, and if none follows there is
/// nothing to wait for.
pub proof fn lemma_failed_spawn_unchained(m: RunModel)
    requires
        !m.stopped,
    ensures
        match run_step(m, Event::SpawnFailed).1 {
            Step::Spawn(_, _, input, _) => input == Source::Terminal,
            Step::Wait => false,
            _ => true,
        },
{
}

} // verus!
