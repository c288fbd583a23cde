//! An indenting text buffer for pretty-printing nested structures.
use crate::text::{chars_of, string_of};
use vstd::string::StringExecFns;
use colored::{Color, Colorize};
use vstd::prelude::*;

verus! {

/// Lines of text under construction, with a stack of indentation depths.
pub struct Tty {
    depths: Vec<usize>,
    o: Vec<String>,
    latch: usize,
}

pub open spec fn rule_plain() -> Seq<char> {
    seq!['\u{2502}']
}

/// The rule drawn in bright black with ANSI escapes.
pub open spec fn rule_colored() -> Seq<char> {
    seq!['\u{1b}', '[', '9', '0', 'm', '\u{2502}', '\u{1b}', '[', '0', 'm']
}

/// Relies on colored's `Colorize::color` and `Display for ColoredString`: the vertical rule,
/// wrapped in the bright-black escapes when colouring is on, bare when it is off.
#[verifier::external_body]
fn rule_separator() -> (r: String)
    ensures
        r@ == rule_plain() || r@ == rule_colored(),
{
    "\u{2502}".color(Color::BrightBlack).to_string()
}

pub open spec fn spaces(n: int) -> Seq<char> {
    Seq::new(if n > 0 { n as nat } else { 0 }, |_i: int| ' ')
}

/// The indentation for `depths`: for each depth after the first, `depth - 1` spaces, joined by `sep`.
pub open spec fn indent_of(depths: Seq<usize>, sep: Seq<char>, k: nat) -> Seq<char>
    decreases k,
{
    if k <= 1 || k > depths.len() {
        Seq::empty()
    } else if k == 2 {
        spaces(depths[1] - 1)
    } else {
        indent_of(depths, sep, (k - 1) as nat) + sep + spaces(depths[k - 1] - 1)
    }
}

/// The lines joined by newlines.
pub open spec fn joined(lines: Seq<Seq<char>>, k: nat) -> Seq<char>
    decreases k,
{
    if k == 0 || k > lines.len() {
        Seq::empty()
    } else if k == 1 {
        lines[0]
    } else {
        joined(lines, (k - 1) as nat) + seq!['\n'] + lines[k - 1]
    }
}

fn push_all(v: &mut Vec<char>, s: &Vec<char>)
    ensures
        final(v)@ == old(v)@ + s@,
{
    let mut k: usize = 0;
    while k < s.len()
        invariant
            k <= s@.len(),
            v@ == old(v)@ + s@.subrange(0, k as int),
        decreases s@.len() - k,
    {
        v.push(s[k]);
        k = k + 1;
        assert(s@.subrange(0, k as int) =~= s@.subrange(0, k - 1) + seq![s@[k - 1]]);
    }
    assert(s@.subrange(0, s@.len() as int) =~= s@);
}

fn push_spaces(v: &mut Vec<char>, d: usize)
    ensures
        final(v)@ == old(v)@ + spaces(d - 1),
{
    if d == 0 {
        assert(spaces(d - 1) =~= Seq::<char>::empty());
        return;
    }
    let mut k: usize = 0;
    while k < d - 1
        invariant
            d > 0,
            k <= d - 1,
            v@ == old(v)@ + spaces(k as int + 1 - 1),
        decreases d - 1 - k,
    {
        v.push(' ');
        k = k + 1;
        assert(spaces(k as int) =~= spaces(k - 1) + seq![' ']);
    }
}

impl Tty {
    pub closed spec fn lines(&self) -> Seq<Seq<char>> {
        self.o@.map_values(|s: String| s@)
    }

    pub closed spec fn depths_view(&self) -> Seq<usize> {
        self.depths@
    }

    pub closed spec fn latch_view(&self) -> usize {
        self.latch
    }

    /// There is always a line being written.
    pub closed spec fn wf(&self) -> bool {
        self.o@.len() > 0
    }

    /// A well-formed buffer has a line being written.
    pub proof fn lemma_wf_has_line(&self)
        ensures
            self.wf() <==> self.lines().len() > 0,
    {
    }

    pub fn new() -> (r: Self)
        ensures
            r.wf(),
            r.depths_view() == seq![0usize],
            r.lines() == seq![Seq::<char>::empty()],
            r.latch_view() == 0,
    {
        let mut depths = Vec::new();
        depths.push(0);
        let mut o = Vec::new();
        o.push(String::new());
        let r = Tty { depths, o, latch: 0 };
        assert(r.lines() =~= seq![Seq::<char>::empty()]);
        assert(r.depths_view() =~= seq![0usize]);
        r
    }

    fn append_last(&mut self, s: &str)
        requires
            old(self).wf(),
        ensures
            final(self).wf(),
            final(self).lines() == old(self).lines().update(
                old(self).lines().len() - 1,
                old(self).lines().last() + s@,
            ),
            final(self).depths == old(self).depths,
            final(self).latch == old(self).latch,
    {
        let last = self.o.len() - 1;
        let mut line = self.o[last].clone();
        line.append(s);
        self.o.set(last, line);
        assert(self.lines() =~= old(self).lines().update(last as int, old(self).lines().last() + s@));
    }

    /// Writes `l` on the current line, indented by the depth stack unless an indent is latched.
    pub fn write(&mut self, l: &str)
        requires
            old(self).wf(),
        ensures
            final(self).wf(),
            final(self).depths_view() == old(self).depths_view(),
            final(self).lines().len() == old(self).lines().len(),
            old(self).latch_view() > 0 ==> final(self).latch_view() == old(self).latch_view() - 1
                && final(self).lines() == old(self).lines().update(
                old(self).lines().len() - 1,
                old(self).lines().last() + l@,
            ),
            old(self).latch_view() == 0 ==> final(self).latch_view() == 0 && exists|sep: Seq<char>|
                (sep == rule_plain() || sep == rule_colored()) && #[trigger] final(self).lines() == old(
                self,
            ).lines().update(
                old(self).lines().len() - 1,
                old(self).lines().last() + indent_of(old(self).depths_view(), sep, old(self).depths_view().len()) + l@,
            ),
    {
        if self.latch > 0 {
            self.latch = self.latch - 1;
            self.append_last(l);
        } else {
            let rule = rule_separator();
            let sep = chars_of(rule.as_str());
            let mut indent: Vec<char> = Vec::new();
            let mut k: usize = 1;
            while k < self.depths.len()
                invariant
                    1 <= k <= self.depths@.len() || (k == 1 && self.depths@.len() == 0),
                    indent@ == indent_of(self.depths@, sep@, k as nat),
                decreases self.depths@.len() - k,
            {
                if k > 1 {
                    push_all(&mut indent, &sep);
                }
                push_spaces(&mut indent, self.depths[k]);
                k = k + 1;
            }
            if self.depths.len() == 0 {
                assert(indent_of(self.depths@, sep@, 0) =~= indent_of(self.depths@, sep@, 1));
            }
            let mut line = string_of(&indent);
            line.append(l);
            let ghost before = self.lines();
            self.append_last(line.as_str());
            assert(final(self).lines() == before.update(before.len() - 1, before.last() + (indent@ + l@)));
            assert(before.last() + (indent@ + l@) =~= before.last() + indent@ + l@);
            assert(indent@ == indent_of(old(self).depths_view(), sep@, old(self).depths_view().len()));
            assert(sep@ == rule_plain() || sep@ == rule_colored());
            assert(final(self).lines() == old(self).lines().update(
                old(self).lines().len() - 1,
                old(self).lines().last() + indent_of(old(self).depths_view(), sep@, old(self).depths_view().len()) + l@,
            ));
        }
    }

    /// Appends `s` to the current line, without indentation.
    pub fn append(&mut self, s: &str)
        requires
            old(self).wf(),
        ensures
            final(self).wf(),
            final(self).lines() == old(self).lines().update(
                old(self).lines().len() - 1,
                old(self).lines().last() + s@,
            ),
            final(self).depths_view() == old(self).depths_view(),
            final(self).latch_view() == old(self).latch_view(),
    {
        self.append_last(s)
    }

    /// Pushes an indentation depth.
    pub fn shift(&mut self, d: usize)
        ensures
            final(self).depths_view() == old(self).depths_view().push(d),
            final(self).lines() == old(self).lines(),
            final(self).latch_view() == old(self).latch_view(),
            old(self).wf() ==> final(self).wf(),
    {
        self.depths.push(d);
    }

    /// Pops the innermost indentation depth, if any.
    pub fn unshift(&mut self)
        ensures
            old(self).depths_view().len() > 0 ==> final(self).depths_view() == old(self).depths_view().drop_last(),
            old(self).depths_view().len() == 0 ==> final(self).depths_view() == old(self).depths_view(),
            final(self).lines() == old(self).lines(),
            final(self).latch_view() == old(self).latch_view(),
            old(self).wf() ==> final(self).wf(),
    {
        self.depths.pop();
    }

    /// Starts a new line.
    pub fn cr(&mut self)
        ensures
            final(self).wf(),
            final(self).lines() == old(self).lines().push(Seq::<char>::empty()),
            final(self).depths_view() == old(self).depths_view(),
            final(self).latch_view() == old(self).latch_view(),
    {
        self.o.push(String::new());
        assert(self.lines() =~= old(self).lines().push(Seq::<char>::empty()));
    }

    /// All lines, joined by newlines.
    pub fn page_feed(&self) -> (r: String)
        ensures
            r@ == joined(self.lines(), self.lines().len()),
    {
        let mut out: Vec<char> = Vec::new();
        let mut k: usize = 0;
        while k < self.o.len()
            invariant
                k <= self.o@.len(),
                out@ == joined(self.lines(), k as nat),
            decreases self.o@.len() - k,
        {
            if k > 0 {
                out.push('\n');
            }
            let line = chars_of(self.o[k].as_str());
            push_all(&mut out, &line);
            k = k + 1;
            proof {
                if k == 1 {
                    assert(out@ =~= joined(self.lines(), 1));
                }
            }
        }
        string_of(&out)
    }

    /// Makes the next write skip its indentation.
    pub fn latch_indent(&mut self)
        requires
            old(self).latch_view() < usize::MAX,
        ensures
            final(self).latch_view() == old(self).latch_view() + 1,
            final(self).lines() == old(self).lines(),
            final(self).depths_view() == old(self).depths_view(),
            old(self).wf() ==> final(self).wf(),
    {
        self.latch = self.latch + 1;
    }

    /// The number of indentation levels.
    pub fn depth(&self) -> (r: usize)
        ensures
            r == self.depths_view().len(),
    {
        self.depths.len()
    }
}

} // verus!
