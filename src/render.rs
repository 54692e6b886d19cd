use vstd::prelude::*;

use crate::number::{push_char, push_text, Number};
use crate::program::{opt_wf, Direction, Distance, GCode, Program};

verus! {

/// Why a program cannot be rendered.
#[derive(Clone, Copy, Debug, PartialEq, Eq)]
pub enum RenderError {
    /// A linear move came before any feedrate was established.
    MissingFeedrate,
}

/// ` <letter><value>` when the value is present, nothing otherwise.
pub open spec fn field(letter: char, v: Option<Number>) -> Seq<char> {
    match v {
        Some(n) => seq![' ', letter] + n.text(),
        None => seq![],
    }
}

/// The feedrate of a linear move, given the current feedrate `last` and the
/// supplied one `f`: the F value to emit and the next current feedrate, or
/// `None` when no feedrate is known at all.
pub open spec fn feed_step(last: Option<Number>, f: Option<Number>) -> Option<
    (Option<Number>, Option<Number>),
> {
    match (last, f) {
        (None, None) => None,
        (None, Some(n)) => Some((Some(n), Some(n))),
        (Some(l), Some(n)) => if l.same_value(n) {
            Some((None, Some(n)))
        } else {
            Some((Some(n), Some(l)))
        },
        (Some(l), None) => Some((None, Some(l))),
    }
}

/// The text one instruction renders to (empty or one line ending in a line
/// break) and the current feedrate afterwards.
pub open spec fn code_line(code: GCode, last: Option<Number>) -> Result<
    (Seq<char>, Option<Number>),
    RenderError,
> {
    match code {
        GCode::RapidPositioning { x, y } => if x is None && y is None {
            Ok((seq![], last))
        } else {
            Ok((seq!['G', '0'] + field('X', x) + field('Y', y) + seq!['\n'], last))
        },
        GCode::LinearInterpolation { x, y, z, f } => if x is None && y is None && z is None
            && f is None {
            Ok((seq![], last))
        } else {
            match feed_step(last, f) {
                None => Err(RenderError::MissingFeedrate),
                Some((emit, next)) => Ok(
                    (
                        seq!['G', '1'] + field('X', x) + field('Y', y) + field('Z', z) + field(
                            'F',
                            emit,
                        ) + seq!['\n'],
                        next,
                    ),
                ),
            }
        },
        GCode::Dwell { p } => Ok((seq!['G', '4', ' ', 'P'] + p.text() + seq!['\n'], last)),
        GCode::UnitsInches => Ok((seq!['G', '2', '0', '\n'], last)),
        GCode::UnitsMillimeters => Ok((seq!['G', '2', '1', '\n'], last)),
        GCode::ProgramEnd => Ok((seq!['M', '2', '0', '\n'], last)),
        GCode::StartSpindle { d, s } => {
            let m = match d {
                Direction::Clockwise => '3',
                Direction::AntiClockwise => '4',
            };
            Ok((seq!['M', m, ' ', 'S'] + s.text() + seq!['\n'], last))
        },
        GCode::StopSpindle => Ok((seq!['M', '5', '\n'], last)),
        GCode::DistanceMode(mode) => {
            let c = match mode {
                Distance::Absolute => '0',
                Distance::Incremental => '1',
            };
            Ok((seq!['G', '9', c, '\n'], last))
        },
        GCode::Comment(text) => Ok((seq!['('] + text@ + seq![')', '\n'], last)),
        GCode::Raw(text) => Ok((text@ + seq!['\n'], last)),
    }
}

/// `t` in front of the text of `r`.
pub open spec fn prepend(t: Seq<char>, r: Result<Seq<char>, RenderError>) -> Result<
    Seq<char>,
    RenderError,
> {
    match r {
        Ok(rest) => Ok(t + rest),
        Err(e) => Err(e),
    }
}

/// The text of `codes` rendered in order, starting from current feedrate
/// `last`; the first error stops the rendering.
pub open spec fn render_from(codes: Seq<GCode>, last: Option<Number>) -> Result<
    Seq<char>,
    RenderError,
>
    decreases codes.len(),
{
    if codes.len() == 0 {
        Ok(seq![])
    } else {
        match code_line(codes[0], last) {
            Err(e) => Err(e),
            Ok((line, next)) => prepend(line, render_from(codes.drop_first(), next)),
        }
    }
}

/// The text of a whole program; no feedrate is current at its start.
pub open spec fn render(codes: Seq<GCode>) -> Result<Seq<char>, RenderError> {
    render_from(codes, None)
}

/// The line of a linear move with the given fields and emitted feedrate.
pub open spec fn linear_line(
    x: Option<Number>,
    y: Option<Number>,
    z: Option<Number>,
    emit: Option<Number>,
) -> Seq<char> {
    seq!['G', '1'] + field('X', x) + field('Y', y) + field('Z', z) + field('F', emit) + seq!['\n']
}

/// A positioning or linear move with none of its fields set.
pub open spec fn is_empty_move(code: GCode) -> bool {
    match code {
        GCode::RapidPositioning { x, y } => x is None && y is None,
        GCode::LinearInterpolation { x, y, z, f } => x is None && y is None && z is None
            && f is None,
        _ => false,
    }
}

/// A program made only of moves with no fields set renders to no text at
/// all, whatever feedrate is current.
pub proof fn lemma_empty_moves_render_nothing(codes: Seq<GCode>, last: Option<Number>)
    requires
        forall|i: int| 0 <= i < codes.len() ==> is_empty_move(#[trigger] codes[i]),
    ensures
        render_from(codes, last) == Ok::<Seq<char>, RenderError>(seq![]),
    decreases codes.len(),
{
    if codes.len() > 0 {
        assert(is_empty_move(codes[0]));
        let rest = codes.drop_first();
        assert forall|i: int| 0 <= i < rest.len() implies is_empty_move(#[trigger] rest[i]) by {
            assert(rest[i] == codes[i + 1]);
        }
        lemma_empty_moves_render_nothing(rest, last);
        assert(seq![] + seq![] =~= Seq::<char>::empty());
    }
}

/// A linear move that supplies a feedrate while none is current succeeds,
/// emits that feedrate, and makes it current.
pub proof fn lemma_first_feedrate_emitted(
    x: Option<Number>,
    y: Option<Number>,
    z: Option<Number>,
    f: Number,
)
    ensures
        code_line(GCode::LinearInterpolation { x, y, z, f: Some(f) }, None) == Ok::<
            (Seq<char>, Option<Number>),
            RenderError,
        >((linear_line(x, y, z, Some(f)), Some(f))),
{
}

/// A linear move with at least one coordinate and no feedrate fails while no
/// feedrate is current.
pub proof fn lemma_missing_feedrate_fails(x: Option<Number>, y: Option<Number>, z: Option<Number>)
    requires
        !(x is None && y is None && z is None),
    ensures
        code_line(GCode::LinearInterpolation { x, y, z, f: None }, None) == Err::<
            (Seq<char>, Option<Number>),
            RenderError,
        >(RenderError::MissingFeedrate),
{
}

/// A linear move whose feedrate equals the current one omits the F field and
/// makes the supplied value current.
pub proof fn lemma_equal_feedrate_omitted(
    x: Option<Number>,
    y: Option<Number>,
    z: Option<Number>,
    f1: Number,
    f2: Number,
)
    requires
        f1.same_value(f2),
    ensures
        code_line(GCode::LinearInterpolation { x, y, z, f: Some(f2) }, Some(f1)) == Ok::<
            (Seq<char>, Option<Number>),
            RenderError,
        >((linear_line(x, y, z, None), Some(f2))),
{
}

/// A linear move whose feedrate differs from the current one emits it, but the
/// current feedrate stays; so a second move with that same new feedrate emits
/// it again.
pub proof fn lemma_changed_feedrate_not_kept(
    x: Option<Number>,
    y: Option<Number>,
    z: Option<Number>,
    f1: Number,
    f2: Number,
)
    requires
        !f1.same_value(f2),
    ensures
        code_line(GCode::LinearInterpolation { x, y, z, f: Some(f2) }, Some(f1)) == Ok::<
            (Seq<char>, Option<Number>),
            RenderError,
        >((linear_line(x, y, z, Some(f2)), Some(f1))),
        render_from(
            seq![
                GCode::LinearInterpolation { x, y, z, f: Some(f2) },
                GCode::LinearInterpolation { x, y, z, f: Some(f2) },
            ],
            Some(f1),
        ) == Ok::<Seq<char>, RenderError>(
            linear_line(x, y, z, Some(f2)) + linear_line(x, y, z, Some(f2)),
        ),
{
    let g = GCode::LinearInterpolation { x, y, z, f: Some(f2) };
    let codes = seq![g, g];
    assert(codes.drop_first() =~= seq![g]);
    assert(codes.drop_first().drop_first() =~= Seq::<GCode>::empty());
    let l = linear_line(x, y, z, Some(f2));
    assert(code_line(g, Some(f1)) == Ok::<(Seq<char>, Option<Number>), RenderError>((l, Some(f1))));
    assert(render_from(Seq::<GCode>::empty(), Some(f1)) == Ok::<Seq<char>, RenderError>(seq![]));
    assert(l + seq![] =~= l);
    assert(render_from(seq![g], Some(f1)) == Ok::<Seq<char>, RenderError>(l));
}

fn push_field(out: &mut String, letter: char, v: Option<Number>)
    requires
        opt_wf(v),
    ensures
        final(out)@ == old(out)@ + field(letter, v),
{
    if let Some(n) = v {
        push_char(out, ' ');
        push_char(out, letter);
        n.write_to(out);
        assert(final(out)@ =~= old(out)@ + field(letter, v));
    } else {
        assert(out@ =~= old(out)@ + field(letter, v));
    }
}

/// Renders one instruction, given and updating the current feedrate.
pub fn render_code(code: &GCode, last_feedrate: &mut Option<Number>) -> (r: Result<
    String,
    RenderError,
>)
    requires
        code.wf(),
        opt_wf(*old(last_feedrate)),
    ensures
        match code_line(*code, *old(last_feedrate)) {
            Ok((t, next)) => r is Ok && r->Ok_0@ == t && *final(last_feedrate) == next,
            Err(e) => r == Err::<String, RenderError>(e) && *final(last_feedrate) == *old(
                last_feedrate,
            ),
        },
        opt_wf(*final(last_feedrate)),
{
    let mut out = String::new();
    match code {
        GCode::RapidPositioning { x, y } => {
            if x.is_none() && y.is_none() {
                return Ok(out);
            }
            push_char(&mut out, 'G');
            push_char(&mut out, '0');
            push_field(&mut out, 'X', *x);
            push_field(&mut out, 'Y', *y);
            push_char(&mut out, '\n');
        },
        GCode::LinearInterpolation { x, y, z, f } => {
            if x.is_none() && y.is_none() && z.is_none() && f.is_none() {
                return Ok(out);
            }
            let emit: Option<Number>;
            match (*last_feedrate, *f) {
                (None, None) => {
                    return Err(RenderError::MissingFeedrate);
                },
                (None, Some(n)) => {
                    emit = Some(n);
                    *last_feedrate = Some(n);
                },
                (Some(l), Some(n)) => {
                    if l.equals(&n) {
                        emit = None;
                        *last_feedrate = Some(n);
                    } else {
                        emit = Some(n);
                    }
                },
                (Some(_), None) => {
                    emit = None;
                },
            }
            push_char(&mut out, 'G');
            push_char(&mut out, '1');
            push_field(&mut out, 'X', *x);
            push_field(&mut out, 'Y', *y);
            push_field(&mut out, 'Z', *z);
            push_field(&mut out, 'F', emit);
            push_char(&mut out, '\n');
        },
        GCode::Dwell { p } => {
            push_text(&mut out, "G4 P");
            p.write_to(&mut out);
            push_char(&mut out, '\n');
        },
        GCode::UnitsInches => {
            push_text(&mut out, "G20\n");
        },
        GCode::UnitsMillimeters => {
            push_text(&mut out, "G21\n");
        },
        GCode::ProgramEnd => {
            push_text(&mut out, "M20\n");
        },
        GCode::StartSpindle { d, s } => {
            push_char(&mut out, 'M');
            match d {
                Direction::Clockwise => push_char(&mut out, '3'),
                Direction::AntiClockwise => push_char(&mut out, '4'),
            }
            push_text(&mut out, " S");
            s.write_to(&mut out);
            push_char(&mut out, '\n');
        },
        GCode::StopSpindle => {
            push_text(&mut out, "M5\n");
        },
        GCode::DistanceMode(mode) => {
            push_text(&mut out, "G9");
            match mode {
                Distance::Absolute => push_char(&mut out, '0'),
                Distance::Incremental => push_char(&mut out, '1'),
            }
            push_char(&mut out, '\n');
        },
        GCode::Comment(text) => {
            push_char(&mut out, '(');
            push_text(&mut out, text.as_str());
            push_char(&mut out, ')');
            push_char(&mut out, '\n');
        },
        GCode::Raw(text) => {
            push_text(&mut out, text.as_str());
            push_char(&mut out, '\n');
        },
    }
    proof {
        reveal_strlit("G4 P");
        reveal_strlit("G20\n");
        reveal_strlit("G21\n");
        reveal_strlit("M20\n");
        reveal_strlit(" S");
        reveal_strlit("M5\n");
        reveal_strlit("G9");
        let (t, next) = code_line(*code, *old(last_feedrate))->Ok_0;
        assert(out@ =~= t);
    }
    Ok(out)
}

proof fn lemma_prepend_assoc(a: Seq<char>, b: Seq<char>, r: Result<Seq<char>, RenderError>)
    ensures
        prepend(a, prepend(b, r)) == prepend(a + b, r),
{
    if let Ok(t) = r {
        assert(a + (b + t) =~= (a + b) + t);
    }
}

/// Renders a whole program to text. Rendering stops at the first error.
pub fn program2gcode(p: &Program) -> (r: Result<String, RenderError>)
    requires
        p.wf(),
    ensures
        match render(p@) {
            Ok(t) => r is Ok && r->Ok_0@ == t,
            Err(e) => r == Err::<String, RenderError>(e),
        },
{
    let codes = p.as_slice();
    let mut out = String::new();
    let mut last: Option<Number> = None;
    let mut i: usize = 0;
    assert(codes@.skip(0) =~= codes@);
    assert(out@ + seq![] =~= out@);
    while i < codes.len()
        invariant
            codes@ == p@,
            p.wf(),
            i <= codes@.len(),
            opt_wf(last),
            render(p@) == prepend(out@, render_from(codes@.skip(i as int), last)),
        decreases codes@.len() - i,
    {
        let ghost rest = codes@.skip(i as int);
        assert(rest[0] == codes@[i as int]);
        assert(rest.drop_first() =~= codes@.skip(i + 1));
        let ghost before = out@;
        let ghost last0 = last;
        match render_code(&codes[i], &mut last) {
            Ok(line) => {
                push_text(&mut out, line.as_str());
                proof {
                    let (t, next) = code_line(rest[0], last0)->Ok_0;
                    lemma_prepend_assoc(before, t, render_from(rest.drop_first(), next));
                }
            },
            Err(e) => {
                return Err(e);
            },
        }
        i = i + 1;
    }
    assert(out@ + seq![] =~= out@);
    Ok(out)
}

} // verus!
