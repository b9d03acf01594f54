use vstd::prelude::*;
use crate::environment::{Environment, ScopeView};
use crate::error::{Expected, LoxError, ParserError, RuntimeError, SyntaxError};
use crate::eval::{fits, scopes_fit, Arithmetic, Fault, Shape, Value};
use crate::parser::{lemma_marks_same_views, parse_report, program_spelled, Parser, Step};
use crate::scanner::{error_views, lemma_lex_ends_with_eof, lex, token_views, Scanner};
use crate::statement::{exec, fault_of, lemma_exec_keeps_outer, lemma_exec_fits, lemma_state_fits_trans, output_view, Statement};
use crate::token::Token;

verus! {

/// What running a program produced, in order: a statement that did not
/// parse, a line that `print` wrote, or the runtime error that stopped a
/// top-level statement.
#[derive(Debug)]
pub enum Event {
    Syntax(SyntaxError),
    Print(Value),
    Failure(RuntimeError),
}

/// An event as the contracts see it.
pub enum Happening {
    Unparsed(Expected),
    Printed(Shape),
    Failed(Fault),
}

impl View for Event {
    type V = Happening;

    open spec fn view(&self) -> Happening {
        match self {
            Event::Syntax(e) => Happening::Unparsed(e.expected),
            Event::Print(v) => Happening::Printed(v@),
            Event::Failure(e) => Happening::Failed(e@),
        }
    }
}

pub open spec fn happening_fits(c: Happening, a: Happening) -> bool {
    match (c, a) {
        (Happening::Printed(x), Happening::Printed(y)) => fits(x, y),
        (Happening::Failed(f), Happening::Failed(g)) => f == g,
        _ => false,
    }
}

/// Whether events know at least what others do, one for one.
pub open spec fn events_fit(c: Seq<Happening>, a: Seq<Happening>) -> bool {
    &&& c.len() == a.len()
    &&& forall|i: int| 0 <= i < c.len() ==> happening_fits(#[trigger] c[i], a[i])
}

pub open spec fn event_views(es: Seq<Event>) -> Seq<Happening> {
    es.map_values(|e: Event| e@)
}

/// The events of one top-level statement: what it printed, then its fault
/// if it had one.
pub open spec fn statement_events(printed: Seq<Shape>, fault: Option<Fault>) -> Seq<Happening> {
    printed.map_values(|v: Shape| Happening::Printed(v)) + match fault {
        Some(f) => seq![Happening::Failed(f)],
        None => seq![],
    }
}

/// Running top-level statements one after another: each runs in the scopes
/// the one before left, and a fault is reported while the next goes on.
pub open spec fn run_program(ss: Seq<Statement>, env: Seq<ScopeView>) -> (Seq<Happening>, Seq<ScopeView>)
    decreases ss.len(),
{
    if ss.len() == 0 {
        (seq![], env)
    } else {
        let (before, env1) = run_program(ss.drop_last(), env);
        let r = exec(ss.last(), env1, seq![]);
        (before + statement_events(r.2, r.0), r.1)
    }
}

proof fn lemma_run_program_depth(ss: Seq<Statement>, env: Seq<ScopeView>)
    requires
        env.len() > 0,
    ensures
        run_program(ss, env).1.len() == env.len(),
    decreases ss.len(),
{
    if ss.len() > 0 {
        lemma_run_program_depth(ss.drop_last(), env);
        lemma_exec_keeps_outer(ss.last(), run_program(ss.drop_last(), env).1, seq![]);
    }
}

/// Runs programs, one source text at a time, against an environment that
/// lives across runs.
#[derive(Debug, Default)]
pub struct Lox;

impl Lox {
    /// Scans, parses and runs `source`. Lexical errors stop the run with all
    /// of them; statements that fail to parse are reported as events, one
    /// each, and stop the run before anything runs; otherwise the
    /// tokens spell a program, and each of its top-level statements runs in
    /// turn, one that fails being reported as an event while the next goes
    /// on (see [`run_program`]).
    pub fn run<A: Arithmetic>(&mut self, source: &str, env: &mut Environment, arith: &A, events: &mut Vec<Event>) -> (r: Result<(), LoxError>)
        requires
            source@.len() < usize::MAX,
            old(env).depth() > 0,
        ensures
            final(env).depth() == old(env).depth(),
            final(events)@.len() >= old(events)@.len(),
            final(events)@.subrange(0, old(events)@.len() as int) == old(events)@,
            lex(source@).1.len() > 0 <==> r matches Err(LoxError::ScannerError(_)),
            r matches Err(LoxError::ScannerError(es)) ==> error_views(es@) == lex(source@).1,
            !(r matches Err(LoxError::RuntimeError(_))),
            r is Err ==> final(env).view_scopes() == old(env).view_scopes(),
            r matches Err(LoxError::ScannerError(_)) ==> final(events)@ == old(events)@,
            r matches Err(LoxError::ParserError(_)) ==> exists|toks: Seq<Token>, stmts: Seq<Statement>, fails: Seq<SyntaxError>, st: Seq<Step>| {
                &&& token_views(toks) == lex(source@).0
                &&& 0 < fails.len()
                &&& final(events)@.len() == old(events)@.len() + fails.len()
                &&& forall|j: int| 0 <= j < fails.len() ==> #[trigger] final(events)@[old(events)@.len() + j]
                    == Event::Syntax(fails[j])
                &&& #[trigger] parse_report(toks, stmts, fails, st)
            },
            lex(source@).1.len() == 0 && (exists|toks: Seq<Token>, ss: Seq<Statement>, end: int|
                token_views(toks) == lex(source@).0 && #[trigger] program_spelled(toks, ss, 0, end)) ==> r is Ok,
            r is Ok ==> exists|toks: Seq<Token>, ss: Seq<Statement>, end: int| {
                &&& token_views(toks) == lex(source@).0
                &&& #[trigger] program_spelled(toks, ss, 0, end)
                &&& events_fit(
                    event_views(final(events)@).subrange(old(events)@.len() as int, final(events)@.len() as int),
                    run_program(ss, old(env).view_scopes()).0,
                )
                &&& scopes_fit(final(env).view_scopes(), run_program(ss, old(env).view_scopes()).1)
            },
    {
        let mut scanner = Scanner::new(source);
        let clean = scanner.scan_tokens().is_ok();
        let (tokens, errors) = scanner.into_parts();
        if !clean {
            return Err(LoxError::ScannerError(errors));
        }
        proof {
            lemma_lex_ends_with_eof(source@, 0, 1);
            assert(token_views(tokens@)[tokens@.len() - 1] == tokens@.last()@);
        }
        let ghost toks = tokens@;
        let mut parser = Parser::new(tokens);
        proof {
            if exists|t2: Seq<Token>, ss: Seq<Statement>, end: int|
                token_views(t2) == lex(source@).0 && #[trigger] program_spelled(t2, ss, 0, end) {
                let (t2, ss, end) = choose|t2: Seq<Token>, ss: Seq<Statement>, end: int|
                    token_views(t2) == lex(source@).0 && #[trigger] program_spelled(t2, ss, 0, end);
                lemma_marks_same_views(t2, toks, 0, end);
                assert(token_views(t2)[end] == token_views(toks)[end]);
                assert(program_spelled(toks, ss, 0, end));
            }
        }
        let (program, failures) = parser.parse_all();
        if failures.len() > 0 {
            let ghost events0 = events@;
            let ghost fails0 = failures@;
            let mut failures = failures;
            let ghost mut reported: int = 0;
            while failures.len() > 0
                invariant
                    events0 == old(events)@,
                    0 <= reported <= fails0.len(),
                    failures@ == fails0.subrange(reported, fails0.len() as int),
                    events@.len() == events0.len() + reported,
                    events@.subrange(0, events0.len() as int) == events0,
                    forall|j: int| 0 <= j < reported ==> #[trigger] events@[events0.len() + j] == Event::Syntax(fails0[j]),
                decreases failures@.len(),
            {
                let ghost e1 = events@;
                let f = failures.remove(0);
                events.push(Event::Syntax(f));
                proof {
                    assert(f == fails0[reported]);
                    assert(events@.subrange(0, events0.len() as int) =~= e1.subrange(0, events0.len() as int));
                    assert forall|j: int| 0 <= j < reported + 1 implies #[trigger] events@[events0.len() + j]
                        == Event::Syntax(fails0[j]) by {
                        if j < reported {
                            assert(events@[events0.len() + j] == e1[events0.len() + j]);
                        }
                    }
                    assert(failures@ =~= fails0.subrange(reported + 1, fails0.len() as int));
                    reported = reported + 1;
                }
            }
            proof {
                assert(parse_report(toks, program@, fails0, parser.steps()));
            }
            return Err(LoxError::ParserError(ParserError));
        }
        let ghost end = parser.current() as int;
        assert(program_spelled(toks, program@, 0, end));
        let ghost env0 = env.view_scopes();
        let ghost events0 = events@;
        proof {
            assert(program_spelled(toks, program@, 0, end));
            assert(program@.take(0) =~= Seq::<Statement>::empty());
            assert(event_views(events@).subrange(events0.len() as int, events@.len() as int) =~= Seq::<Happening>::empty());
        }
        let mut i: usize = 0;
        while i < program.len()
            invariant
                env.depth() == old(env).depth(),
                env.depth() > 0,
                env0 == old(env).view_scopes(),
                events0 == old(events)@,
                events@.len() >= events0.len(),
                events@.subrange(0, events0.len() as int) == events0,
                i <= program@.len(),
                events_fit(
                    event_views(events@).subrange(events0.len() as int, events@.len() as int),
                    run_program(program@.take(i as int), env0).0,
                ),
                scopes_fit(env.view_scopes(), run_program(program@.take(i as int), env0).1),
            decreases program.len() - i,
        {
            let ghost e1 = env.view_scopes();
            let ghost before = events@;
            let ghost a = run_program(program@.take(i as int), env0);
            let mut printed: Vec<Value> = Vec::new();
            let res = program[i].eval(env, arith, &mut printed);
            let ghost x = exec(program@[i as int], a.1, seq![]);
            proof {
                assert(output_view(Seq::<Value>::empty()) =~= Seq::<Shape>::empty());
                lemma_run_program_depth(program@.take(i as int), env0);
                lemma_exec_fits(program@[i as int], e1, a.1, seq![], seq![]);
                lemma_state_fits_trans(
                    (fault_of(res), env.view_scopes(), output_view(printed@)),
                    exec(program@[i as int], e1, output_view(Seq::<Value>::empty())),
                    x,
                );
                assert forall|m: int| 0 <= m < printed@.len() implies fits(#[trigger] printed@[m]@, x.2[m]) by {
                    assert(output_view(printed@)[m] == printed@[m]@);
                }
                assert(program@.take(i + 1).drop_last() =~= program@.take(i as int));
                assert(program@.take(i + 1).last() == program@[i as int]);
            }
            let mut j: usize = 0;
            while j < printed.len()
                invariant
                    before.len() >= events0.len(),
                    before.subrange(0, events0.len() as int) == events0,
                    events@.len() == before.len() + j,
                    events@.subrange(0, before.len() as int) == before,
                    j <= printed@.len(),
                    printed@.len() == x.2.len(),
                    forall|m: int| 0 <= m < printed@.len() ==> fits(#[trigger] printed@[m]@, x.2[m]),
                    forall|m: int| 0 <= m < j ==> happening_fits(
                        #[trigger] event_views(events@)[before.len() + m],
                        Happening::Printed(x.2[m]),
                    ),
                decreases printed.len() - j,
            {
                let ghost e2 = events@;
                events.push(Event::Print(printed[j].copy()));
                proof {
                    assert(events@.subrange(0, before.len() as int) =~= e2.subrange(0, before.len() as int));
                    assert forall|m: int| 0 <= m < j + 1 implies happening_fits(
                        #[trigger] event_views(events@)[before.len() + m],
                        Happening::Printed(x.2[m]),
                    ) by {
                        if m < j {
                            assert(event_views(events@)[before.len() + m] == event_views(e2)[before.len() + m]);
                        }
                    }
                }
                j = j + 1;
            }
            if let Err(e) = res {
                let ghost e2 = events@;
                events.push(Event::Failure(e));
                proof {
                    assert(events@.subrange(0, before.len() as int) =~= e2.subrange(0, before.len() as int));
                    assert forall|m: int| 0 <= m < j implies happening_fits(
                        #[trigger] event_views(events@)[before.len() + m],
                        Happening::Printed(x.2[m]),
                    ) by {
                        assert(event_views(events@)[before.len() + m] == event_views(e2)[before.len() + m]);
                    }
                }
            }
            proof {
                let new_part = event_views(events@).subrange(events0.len() as int, events@.len() as int);
                let old_part = event_views(before).subrange(events0.len() as int, before.len() as int);
                let st = statement_events(x.2, x.0);
                let whole = run_program(program@.take(i + 1), env0).0;
                assert(whole == a.0 + st);
                assert(events@.subrange(0, events0.len() as int) =~= before.subrange(0, events0.len() as int));
                assert forall|m: int| 0 <= m < new_part.len() implies happening_fits(#[trigger] new_part[m], whole[m]) by {
                    if m < old_part.len() {
                        assert(new_part[m] == event_views(events@)[events0.len() + m]);
                        assert(event_views(events@)[events0.len() + m] == event_views(before)[events0.len() + m]) by {
                            assert(events@.subrange(0, before.len() as int)[events0.len() + m] == before[events0.len() + m]);
                        }
                        assert(old_part[m] == event_views(before)[events0.len() + m]);
                    } else {
                        let q = m - old_part.len();
                        assert(new_part[m] == event_views(events@)[before.len() + q]);
                        if q < x.2.len() {
                            assert(st[q] == Happening::Printed(x.2[q]));
                        } else {
                            assert(st[q] == Happening::Failed(x.0->Some_0));
                        }
                    }
                }
            }
            i = i + 1;
        }
        proof {
            assert(program@.take(i as int) =~= program@);
        }
        Ok(())
    }
}

} // verus!
