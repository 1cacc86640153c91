//! The text of an output file and the name it is written under.

use vstd::prelude::*;

use crate::csv_source::strings_view;

verus! {

/// The terminator written after each output line.
#[derive(Clone, Copy, Debug, PartialEq, Eq, Structural)]
pub enum LineEnding {
    /// `"\n"`, as on Unix-like systems.
    Lf,
    /// `"\r\n"`, as elsewhere.
    CrLf,
}

impl LineEnding {
    /// The characters of the terminator.
    pub open spec fn text(self) -> Seq<char> {
        match self {
            LineEnding::Lf => seq!['\n'],
            LineEnding::CrLf => seq!['\r', '\n'],
        }
    }

    /// The terminator used on a Unix-like host (`unix`) or on another one.
    pub fn for_host(unix: bool) -> (r: LineEnding)
        ensures
            r == (if unix { LineEnding::Lf } else { LineEnding::CrLf }),
    {
        if unix {
            LineEnding::Lf
        } else {
            LineEnding::CrLf
        }
    }

    /// The terminator as a string.
    pub fn as_str(&self) -> (r: &'static str)
        ensures
            r@ == self.text(),
    {
        match self {
            LineEnding::Lf => {
                proof {
                    reveal_strlit("\n");
                }
                "\n"
            },
            LineEnding::CrLf => {
                proof {
                    reveal_strlit("\r\n");
                }
                "\r\n"
            },
        }
    }
}

/// Each value followed by `ending`, all in order.
pub open spec fn terminated_lines(values: Seq<Seq<char>>, ending: Seq<char>) -> Seq<char> {
    values.map_values(|v: Seq<char>| v + ending).flatten()
}

/// The text of an output file: each value on a line of its own, each line
/// ended by `ending`.
pub fn render_lines(values: &Vec<String>, ending: LineEnding) -> (r: String)
    ensures
        r@ == terminated_lines(strings_view(values@), ending.text()),
{
    let ghost vs = strings_view(values@);
    let ghost e = ending.text();
    let ghost f = |v: Seq<char>| v + e;
    let terminator = ending.as_str();
    let mut out = String::new();
    let mut i: usize = 0;
    while i < values.len()
        invariant
            i <= values.len(),
            vs == strings_view(values@),
            terminator@ == e,
            f == (|v: Seq<char>| v + e),
            out@ == vs.take(i as int).map_values(f).flatten(),
        decreases values.len() - i,
    {
        out.append(values[i].as_str());
        out.append(terminator);
        proof {
            let before = vs.take(i as int).map_values(f);
            assert(vs.take(i as int + 1).map_values(f) =~= before.push(vs[i as int] + e));
            before.lemma_flatten_push(vs[i as int] + e);
            assert(out@ =~= before.flatten() + (vs[i as int] + e));
        }
        i = i + 1;
    }
    proof {
        assert(vs.take(values.len() as int) =~= vs);
    }
    out
}

/// The decimal digit for `d`, below ten.
pub open spec fn digit_char(d: nat) -> char {
    if d == 0 {
        '0'
    } else if d == 1 {
        '1'
    } else if d == 2 {
        '2'
    } else if d == 3 {
        '3'
    } else if d == 4 {
        '4'
    } else if d == 5 {
        '5'
    } else if d == 6 {
        '6'
    } else if d == 7 {
        '7'
    } else if d == 8 {
        '8'
    } else {
        '9'
    }
}

/// The decimal notation of `n`, without leading zeros.
pub open spec fn decimal(n: nat) -> Seq<char>
    decreases n,
{
    if n < 10 {
        seq![digit_char(n)]
    } else {
        decimal(n / 10).push(digit_char(n % 10))
    }
}

/// The name of an output file: `<dir>/<label>_<nanos>.txt`.
pub open spec fn file_name(dir: Seq<char>, label: Seq<char>, nanos: nat) -> Seq<char> {
    dir + seq!['/'] + label + seq!['_'] + decimal(nanos) + seq!['.', 't', 'x', 't']
}

fn digit_str(d: u32) -> (r: &'static str)
    requires
        d < 10,
    ensures
        r@ == seq![digit_char(d as nat)],
{
    proof {
        reveal_strlit("0");
        reveal_strlit("1");
        reveal_strlit("2");
        reveal_strlit("3");
        reveal_strlit("4");
        reveal_strlit("5");
        reveal_strlit("6");
        reveal_strlit("7");
        reveal_strlit("8");
        reveal_strlit("9");
    }
    if d == 0 {
        "0"
    } else if d == 1 {
        "1"
    } else if d == 2 {
        "2"
    } else if d == 3 {
        "3"
    } else if d == 4 {
        "4"
    } else if d == 5 {
        "5"
    } else if d == 6 {
        "6"
    } else if d == 7 {
        "7"
    } else if d == 8 {
        "8"
    } else {
        "9"
    }
}

/// Appends the decimal notation of `n` to `out`.
pub fn push_decimal(out: &mut String, n: u32)
    ensures
        final(out)@ == old(out)@ + decimal(n as nat),
    decreases n,
{
    if n >= 10 {
        push_decimal(out, n / 10);
    }
    out.append(digit_str(n % 10));
    proof {
        assert(final(out)@ =~= old(out)@ + decimal(n as nat));
    }
}

/// The path of an output file: the directory `dir`, then the label and the
/// subsecond part `nanos` of the time at which the run started.
pub fn output_file_name(dir: &str, label: &str, nanos: u32) -> (r: String)
    ensures
        r@ == file_name(dir@, label@, nanos as nat),
{
    let mut name = String::from_str(dir);
    name.append("/");
    name.append(label);
    name.append("_");
    push_decimal(&mut name, nanos);
    name.append(".txt");
    proof {
        reveal_strlit("/");
        reveal_strlit("_");
        reveal_strlit(".txt");
        assert(name@ =~= file_name(dir@, label@, nanos as nat));
    }
    name
}

/// A line as a line reader hands it out: without a `'\r'` that ended it.
pub open spec fn strip_cr(line: Seq<char>) -> Seq<char> {
    if line.len() > 0 && line.last() == '\r' {
        line.drop_last()
    } else {
        line
    }
}

/// The lines of `rest`, the first of them continuing `current`.
pub open spec fn lines_from(rest: Seq<char>, current: Seq<char>) -> Seq<Seq<char>>
    decreases rest.len(),
{
    if rest.len() == 0 {
        if current.len() == 0 {
            Seq::empty()
        } else {
            seq![current]
        }
    } else if rest[0] == '\n' {
        seq![strip_cr(current)] + lines_from(rest.drop_first(), Seq::empty())
    } else {
        lines_from(rest.drop_first(), current.push(rest[0]))
    }
}

/// The lines of `text` as a line reader gives them back: each line ends at a
/// `'\n'`, which it loses together with a `'\r'` just before it, and a last
/// line without `'\n'` counts too.
pub open spec fn read_lines(text: Seq<char>) -> Seq<Seq<char>> {
    lines_from(text, Seq::empty())
}

proof fn lemma_lines_from_value(v: Seq<char>, rest: Seq<char>, current: Seq<char>)
    requires
        !v.contains('\n'),
    ensures
        lines_from(v + rest, current) == lines_from(rest, current + v),
    decreases v.len(),
{
    if v.len() == 0 {
        assert(v + rest =~= rest);
        assert(current + v =~= current);
    } else {
        assert((v + rest)[0] == v[0]);
        assert((v + rest).drop_first() =~= v.drop_first() + rest);
        assert(!v.drop_first().contains('\n')) by {
            if v.drop_first().contains('\n') {
                let k = choose|k: int| 0 <= k < v.drop_first().len() && v.drop_first()[k] == '\n';
                assert(v[k + 1] == '\n');
            }
        }
        assert(v[0] != '\n') by {
            if v[0] == '\n' {
                assert(v.contains('\n'));
            }
        }
        lemma_lines_from_value(v.drop_first(), rest, current.push(v[0]));
        assert(current.push(v[0]) + v.drop_first() =~= current + v);
    }
}

proof fn lemma_lines_from_ending(ending: LineEnding, rest: Seq<char>, current: Seq<char>)
    requires
        ending == LineEnding::Lf ==> strip_cr(current) == current,
    ensures
        lines_from(ending.text() + rest, current) == seq![current] + lines_from(rest, Seq::empty()),
{
    let t = ending.text() + rest;
    match ending {
        LineEnding::Lf => {
            assert(t[0] == '\n');
            assert(t.drop_first() =~= rest);
            assert(lines_from(t, current) == seq![strip_cr(current)] + lines_from(rest, Seq::empty()));
        },
        LineEnding::CrLf => {
            assert(t[0] == '\r');
            let u = t.drop_first();
            assert(u[0] == '\n');
            assert(u.drop_first() =~= rest);
            assert(current.push('\r').drop_last() =~= current);
            assert(lines_from(u, current.push('\r')) == seq![current] + lines_from(rest, Seq::empty()));
            assert(lines_from(t, current) == lines_from(u, current.push('\r')));
        },
    }
}

/// Writing values as lines and reading the text back gives the same values,
/// in order, one per line, for values that hold no `'\n'` (and, with `"\n"`
/// endings, do not end in `'\r'`, which the reader would take as part of the
/// line ending).
pub proof fn lemma_read_back(values: Seq<Seq<char>>, ending: LineEnding)
    requires
        forall|i: int| 0 <= i < values.len() ==> !(#[trigger] values[i]).contains('\n'),
        ending == LineEnding::Lf ==> forall|i: int|
            0 <= i < values.len() ==> strip_cr(#[trigger] values[i]) == values[i],
    ensures
        read_lines(terminated_lines(values, ending.text())) == values,
    decreases values.len(),
{
    let e = ending.text();
    let f = |v: Seq<char>| v + e;
    if values.len() == 0 {
        assert(values.map_values(f) =~= Seq::<Seq<char>>::empty());
        assert(values =~= Seq::<Seq<char>>::empty());
    } else {
        let rest = values.drop_first();
        assert forall|i: int| 0 <= i < rest.len() implies !(#[trigger] rest[i]).contains('\n') by {
            assert(rest[i] == values[i + 1]);
        }
        assert forall|i: int|
            ending == LineEnding::Lf && 0 <= i < rest.len() implies strip_cr(#[trigger] rest[i])
            == rest[i] by {
            assert(rest[i] == values[i + 1]);
        }
        lemma_read_back(rest, ending);
        let m = values.map_values(f);
        assert(m.drop_first() =~= rest.map_values(f));
        let tail = terminated_lines(rest, e);
        assert(terminated_lines(values, e) == m.first() + tail);
        assert(m.first() + tail =~= values[0] + (e + tail));
        lemma_lines_from_value(values[0], e + tail, Seq::empty());
        assert(Seq::<char>::empty() + values[0] =~= values[0]);
        assert(!values[0].contains('\n'));
        lemma_lines_from_ending(ending, tail, values[0]);
        assert(seq![values[0]] + rest =~= values);
    }
}

/// No values make an empty text, which reads back as no lines.
pub proof fn lemma_no_values(ending: LineEnding)
    ensures
        terminated_lines(Seq::empty(), ending.text()) == Seq::<char>::empty(),
        read_lines(Seq::empty()) == Seq::<Seq<char>>::empty(),
{
    let e = ending.text();
    assert(Seq::<Seq<char>>::empty().map_values(|v: Seq<char>| v + e) =~= Seq::<Seq<char>>::empty());
}

proof fn lemma_digit_injective(x: nat, y: nat)
    requires
        x < 10,
        y < 10,
        digit_char(x) == digit_char(y),
    ensures
        x == y,
{
}

/// The notation of a number has at least one digit.
proof fn lemma_decimal_len(n: nat)
    ensures
        decimal(n).len() >= 1,
    decreases n,
{
    if n >= 10 {
        lemma_decimal_len(n / 10);
    }
}

/// Distinct numbers have distinct notations.
pub proof fn lemma_decimal_injective(a: nat, b: nat)
    requires
        decimal(a) == decimal(b),
    ensures
        a == b,
    decreases a,
{
    if a < 10 && b < 10 {
        assert(decimal(a) == seq![digit_char(a)]);
        assert(decimal(b) == seq![digit_char(b)]);
        assert(seq![digit_char(a)][0] == digit_char(a));
        assert(seq![digit_char(b)][0] == digit_char(b));
        lemma_digit_injective(a, b);
    } else if a < 10 {
        lemma_decimal_len(b / 10);
        assert(decimal(a).len() == 1);
        assert(decimal(b).len() == decimal(b / 10).len() + 1);
    } else if b < 10 {
        lemma_decimal_len(a / 10);
        assert(decimal(b).len() == 1);
        assert(decimal(a).len() == decimal(a / 10).len() + 1);
    } else {
        let da = decimal(a);
        let db = decimal(b);
        assert(da.last() == db.last());
        assert(da.drop_last() =~= decimal(a / 10));
        assert(db.drop_last() =~= decimal(b / 10));
        lemma_decimal_injective(a / 10, b / 10);
        lemma_digit_injective(a % 10, b % 10);
        assert(a == 10 * (a / 10) + a % 10);
        assert(b == 10 * (b / 10) + b % 10);
    }
}

/// Runs that start at different subsecond times write to different files.
pub proof fn lemma_distinct_file_names(dir: Seq<char>, label: Seq<char>, a: nat, b: nat)
    requires
        a != b,
    ensures
        file_name(dir, label, a) != file_name(dir, label, b),
{
    let p = dir + seq!['/'] + label + seq!['_'];
    let x = file_name(dir, label, a);
    let y = file_name(dir, label, b);
    if x == y {
        let da = decimal(a);
        let db = decimal(b);
        assert(x.len() == y.len());
        assert(da.len() == db.len());
        assert(x.subrange(p.len() as int, (p.len() + da.len()) as int) =~= da);
        assert(y.subrange(p.len() as int, (p.len() + db.len()) as int) =~= db);
        lemma_decimal_injective(a, b);
    }
}

} // verus!
