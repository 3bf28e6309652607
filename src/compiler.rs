//! The three kinds of declaration, the grouper that builds them from a token
//! stream, and the validator of the references between them.

use vstd::prelude::*;
use vstd::string::*;
use crate::text::{push_str, push_char, spaced, starts_with, str_eq, strip_ends, strip_ends_of};
use crate::tfla::{first_bad, pairs_view, scan, ScanState, Token, TokenView, TFLA};
use crate::text::{decimal, digit_char, join_lines, join_with_newlines, push_decimal};

verus! {

/// An argument tagged by its sigil: `<x>` refers to an assembler, `[x]` to a
/// searcher, `:x:` to a symbol; anything else is a literal.
pub open spec fn tag(a: Seq<char>) -> Seq<char> {
    if a.len() > 2 && a[0] == '<' {
        "as-"@ + strip_ends(a)
    } else if a.len() > 2 && a[0] == '[' {
        "se-"@ + strip_ends(a)
    } else if a.len() > 2 && a[0] == ':' {
        "sy-"@ + strip_ends(a)
    } else {
        "li-"@ + a
    }
}

/// The tags of `args`, in order.
pub open spec fn tags(args: Seq<Seq<char>>) -> Seq<Seq<char>> {
    args.map_values(|a: Seq<char>| tag(a))
}

/// Each of `parts` preceded by one space.
pub open spec fn spaced_tail(parts: Seq<Seq<char>>) -> Seq<char>
    decreases parts.len(),
{
    if parts.len() == 0 {
        Seq::empty()
    } else {
        spaced_tail(parts.drop_last()) + seq![' '] + parts.last()
    }
}

/// The declaration line of a searcher.
pub open spec fn mount_searcher(name: Seq<char>, pattern: Seq<char>) -> Seq<char> {
    "se "@ + name + seq![' '] + pattern
}

/// The declaration line of a symbol.
pub open spec fn mount_symbol(name: Seq<char>, value: Seq<char>) -> Seq<char> {
    "sy "@ + name + seq![' '] + value
}

/// The declaration line of an assembler: its name, then its arguments tagged.
pub open spec fn mount_assembler(name: Seq<char>, args: Seq<Seq<char>>) -> Seq<char> {
    "as "@ + name + spaced_tail(tags(args))
}

/// The views of the strings of `v`.
pub open spec fn strings_view(v: Seq<String>) -> Seq<Seq<char>> {
    v.map_values(|s: String| s@)
}

/// A copy of `v`.
pub fn copy_strings(v: &Vec<String>) -> (r: Vec<String>)
    ensures
        strings_view(r@) == strings_view(v@),
{
    let mut r: Vec<String> = Vec::new();
    let mut i: usize = 0;
    while i < v.len()
        invariant
            i <= v.len(),
            r@.len() == i,
            forall|k: int| 0 <= k < i ==> (#[trigger] r@[k])@ == v@[k]@,
        decreases v.len() - i,
    {
        let s = v[i].as_str().to_owned();
        r.push(s);
        i = i + 1;
    }
    assert(strings_view(r@) =~= strings_view(v@));
    r
}

/// The tag of one argument.
pub fn tag_of(a: &str) -> (r: String)
    ensures
        r@ == tag(a@),
{
    let n = a.unicode_len();
    let mut r = String::new();
    if n > 2 && a.get_char(0) == '<' {
        push_str(&mut r, "as-");
        push_str(&mut r, a.substring_char(1, n - 1));
    } else if n > 2 && a.get_char(0) == '[' {
        push_str(&mut r, "se-");
        push_str(&mut r, a.substring_char(1, n - 1));
    } else if n > 2 && a.get_char(0) == ':' {
        push_str(&mut r, "sy-");
        push_str(&mut r, a.substring_char(1, n - 1));
    } else {
        push_str(&mut r, "li-");
        push_str(&mut r, a);
    }
    assert(r@ =~= tag(a@));
    r
}

/// A named regular expression.
pub struct Searcher {
    name: String,
    regex: String,
}

impl View for Searcher {
    type V = (Seq<char>, Seq<char>);

    closed spec fn view(&self) -> (Seq<char>, Seq<char>) {
        (self.name@, self.regex@)
    }
}

impl Searcher {
    pub fn new(name: &str, regex: &str) -> (r: Searcher)
        ensures
            r@ == (name@, regex@),
    {
        Searcher { name: name.to_owned(), regex: regex.to_owned() }
    }

    /// `se <name> <pattern>`.
    pub fn mount(&self) -> (r: String)
        ensures
            r@ == mount_searcher(self@.0, self@.1),
    {
        let mut r = String::new();
        push_str(&mut r, "se ");
        push_str(&mut r, self.name.as_str());
        push_char(&mut r, ' ');
        push_str(&mut r, self.regex.as_str());
        assert(r@ =~= mount_searcher(self@.0, self@.1));
        r
    }

    /// The name and the pattern, as a rule for the tokenizer.
    pub fn transform(&self) -> (r: (String, String))
        ensures
            (r.0@, r.1@) == self@,
    {
        (self.name.clone(), self.regex.clone())
    }

    /// Extends the pattern by one argument, after a space unless it was empty.
    pub fn add_arbitrary(&mut self, regex: &str)
        ensures
            final(self)@ == (old(self)@.0, spaced(old(self)@.1, regex@)),
    {
        if self.regex.as_str().unicode_len() > 0 {
            push_char(&mut self.regex, ' ');
        }
        push_str(&mut self.regex, regex);
        assert(self.regex@ =~= spaced(old(self)@.1, regex@));
    }
}

/// The pieces of `s` between single spaces, empty pieces included, first to last.
pub open spec fn split_spaces(s: Seq<char>) -> Seq<Seq<char>>
    decreases s.len(),
{
    if s.len() == 0 {
        seq![Seq::empty()]
    } else {
        let p = split_spaces(s.drop_last());
        if s.last() == ' ' {
            p.push(Seq::empty())
        } else {
            p.update(p.len() - 1, p.last().push(s.last()))
        }
    }
}

proof fn lemma_split_nonempty(s: Seq<char>)
    ensures
        split_spaces(s).len() >= 1,
    decreases s.len(),
{
    if s.len() > 0 {
        lemma_split_nonempty(s.drop_last());
    }
}

/// Whether `s` is a non-empty run of decimal digits.
pub open spec fn is_digits(s: Seq<char>) -> bool {
    s.len() > 0 && forall|i: int| 0 <= i < s.len() ==> '0' <= #[trigger] s[i] <= '9'
}

/// The value of the decimal digits `s`.
pub open spec fn digits_value(s: Seq<char>) -> nat
    decreases s.len(),
{
    if s.len() == 0 {
        0
    } else {
        digits_value(s.drop_last()) * 10 + ((s.last() as u32) - ('0' as u32)) as nat
    }
}

proof fn lemma_digits_prefix_le(s: Seq<char>, k: int)
    requires
        0 <= k <= s.len(),
        forall|i: int| 0 <= i < s.len() ==> '0' <= #[trigger] s[i] <= '9',
    ensures
        digits_value(s.subrange(0, k)) <= digits_value(s),
    decreases s.len(),
{
    if k < s.len() {
        assert(s.drop_last().subrange(0, k) =~= s.subrange(0, k));
        lemma_digits_prefix_le(s.drop_last(), k);
        assert('0' <= s.last() <= '9');
    } else {
        assert(s.subrange(0, k) =~= s);
    }
}

/// The pieces of `text` between single spaces.
fn split_on_spaces(text: &str) -> (r: Vec<String>)
    ensures
        strings_view(r@) == split_spaces(text@),
{
    let n = text.unicode_len();
    let mut pieces: Vec<String> = Vec::new();
    let mut cur = String::new();
    let mut i: usize = 0;
    proof {
        assert(text@.subrange(0, 0) =~= Seq::<char>::empty());
        assert(strings_view(pieces@).push(cur@) =~= seq![Seq::<char>::empty()]);
    }
    while i < n
        invariant
            n == text@.len(),
            i <= n,
            split_spaces(text@.subrange(0, i as int)) == strings_view(pieces@).push(cur@),
        decreases n - i,
    {
        let c = text.get_char(i);
        let ghost prev = strings_view(pieces@).push(cur@);
        assert(text@.subrange(0, i + 1).drop_last() =~= text@.subrange(0, i as int));
        assert(text@.subrange(0, i + 1).last() == c);
        if c == ' ' {
            let mut done = String::new();
            std::mem::swap(&mut done, &mut cur);
            pieces.push(done);
            assert(strings_view(pieces@).push(cur@) =~= prev.push(Seq::empty()));
        } else {
            push_char(&mut cur, c);
            assert(strings_view(pieces@).push(cur@) =~= prev.update(prev.len() - 1, prev.last().push(c)));
        }
        i = i + 1;
    }
    assert(text@.subrange(0, n as int) =~= text@);
    pieces.push(cur);
    pieces
}

/// The value of the decimal numeral `s`, if it is one and fits a `usize`.
fn parse_decimal(s: &str) -> (r: Option<usize>)
    ensures
        r is Some <==> is_digits(s@) && digits_value(s@) <= usize::MAX,
        r matches Some(v) ==> v == digits_value(s@),
{
    let n = s.unicode_len();
    if n == 0 {
        return None;
    }
    let mut v: usize = 0;
    let mut i: usize = 0;
    while i < n
        invariant
            n == s@.len(),
            n > 0,
            i <= n,
            forall|k: int| 0 <= k < i ==> '0' <= #[trigger] s@[k] <= '9',
            v == digits_value(s@.subrange(0, i as int)),
        decreases n - i,
    {
        let c = s.get_char(i);
        if c < '0' || c > '9' {
            assert(!is_digits(s@));
            return None;
        }
        assert(s@.subrange(0, i + 1).drop_last() =~= s@.subrange(0, i as int));
        let d: usize = ((c as u32) - ('0' as u32)) as usize;
        match v.checked_mul(10) {
            None => {
                proof {
                    if is_digits(s@) {
                        lemma_digits_prefix_le(s@, i + 1);
                    }
                }
                return None;
            },
            Some(t) => match t.checked_add(d) {
                None => {
                    proof {
                        if is_digits(s@) {
                            lemma_digits_prefix_le(s@, i + 1);
                        }
                    }
                    return None;
                },
                Some(w) => {
                    v = w;
                },
            },
        }
        i = i + 1;
    }
    assert(s@.subrange(0, n as int) =~= s@);
    Some(v)
}

/// A named value.
pub struct Symbol {
    name: String,
    arbitrary: String,
}

impl View for Symbol {
    type V = (Seq<char>, Seq<char>);

    closed spec fn view(&self) -> (Seq<char>, Seq<char>) {
        (self.name@, self.arbitrary@)
    }
}

impl Symbol {
    pub fn new(name: &str, arbitrary: &str) -> (r: Symbol)
        ensures
            r@ == (name@, arbitrary@),
    {
        Symbol { name: name.to_owned(), arbitrary: arbitrary.to_owned() }
    }

    /// `sy <name> <value>`.
    pub fn mount(&self) -> (r: String)
        ensures
            r@ == mount_symbol(self@.0, self@.1),
    {
        let mut r = String::new();
        push_str(&mut r, "sy ");
        push_str(&mut r, self.name.as_str());
        push_char(&mut r, ' ');
        push_str(&mut r, self.arbitrary.as_str());
        assert(r@ =~= mount_symbol(self@.0, self@.1));
        r
    }

    /// Extends the value by one argument, after a space unless it was empty.
    pub fn add_arbitrary(&mut self, arbitrary: &str)
        ensures
            final(self)@ == (old(self)@.0, spaced(old(self)@.1, arbitrary@)),
    {
        if self.arbitrary.as_str().unicode_len() > 0 {
            push_char(&mut self.arbitrary, ' ');
        }
        push_str(&mut self.arbitrary, arbitrary);
        assert(self.arbitrary@ =~= spaced(old(self)@.1, arbitrary@));
    }
}

/// A named composite of references and literals, with its declaration line.
pub struct Assembler {
    name: String,
    arbitrary: Vec<String>,
    line: usize,
}

pub struct AssemblerView {
    pub name: Seq<char>,
    pub args: Seq<Seq<char>>,
    pub line: nat,
}

impl View for Assembler {
    type V = AssemblerView;

    closed spec fn view(&self) -> AssemblerView {
        AssemblerView { name: self.name@, args: strings_view(self.arbitrary@), line: self.line as nat }
    }
}

impl Assembler {
    pub fn new(name: String, arbitrary: Vec<String>) -> (r: Assembler)
        ensures
            r@ == (AssemblerView { name: name@, args: strings_view(arbitrary@), line: 0 }),
    {
        Assembler { name, arbitrary, line: 0 }
    }

    /// Rebuilds an assembler from a numbered line `<line> <prefix> <name> <args...>`,
    /// its pieces separated by single spaces; fails unless the line has at
    /// least three pieces and the first is a decimal numeral that fits a `usize`.
    pub fn from(text: &str) -> (r: Option<Assembler>)
        ensures
            ({
                let p = split_spaces(text@);
                &&& r is Some <==> (p.len() >= 3 && is_digits(p[0]) && digits_value(p[0]) <= usize::MAX)
                &&& r matches Some(a) ==> a@ == (AssemblerView {
                    name: p[2],
                    args: p.subrange(3, p.len() as int),
                    line: digits_value(p[0]),
                })
            }),
    {
        let parts = split_on_spaces(text);
        if parts.len() < 3 {
            return None;
        }
        let line = match parse_decimal(parts[0].as_str()) {
            Some(v) => v,
            None => return None,
        };
        let name = parts[2].as_str().to_owned();
        let mut arbitrary: Vec<String> = Vec::new();
        let mut i: usize = 3;
        while i < parts.len()
            invariant
                3 <= i <= parts@.len(),
                arbitrary@.len() == i - 3,
                forall|k: int| 0 <= k < i - 3 ==> (#[trigger] arbitrary@[k])@ == parts@[k + 3]@,
            decreases parts@.len() - i,
        {
            arbitrary.push(parts[i].as_str().to_owned());
            i = i + 1;
        }
        assert(strings_view(arbitrary@) =~= strings_view(parts@).subrange(3, parts@.len() as int));
        Some(Assembler { name, arbitrary, line })
    }

    /// `as <name>` followed by each argument tagged.
    pub fn mount(&self) -> (r: String)
        ensures
            r@ == mount_assembler(self@.name, self@.args),
    {
        let ghost ts = tags(self@.args);
        let mut r = String::new();
        push_str(&mut r, "as ");
        push_str(&mut r, self.name.as_str());
        let mut i: usize = 0;
        while i < self.arbitrary.len()
            invariant
                i <= self.arbitrary@.len(),
                ts == tags(self@.args),
                ts.len() == self.arbitrary@.len(),
                r@ == "as "@ + self.name@ + spaced_tail(ts.subrange(0, i as int)),
            decreases self.arbitrary@.len() - i,
        {
            let t = tag_of(self.arbitrary[i].as_str());
            push_char(&mut r, ' ');
            push_str(&mut r, t.as_str());
            assert(ts.subrange(0, i + 1).drop_last() =~= ts.subrange(0, i as int));
            assert(r@ =~= "as "@ + self.name@ + spaced_tail(ts.subrange(0, i + 1)));
            i = i + 1;
        }
        assert(ts.subrange(0, ts.len() as int) =~= ts);
        r
    }

    pub fn add_arbitrary(&mut self, arbitrary: &str)
        ensures
            final(self)@ == (AssemblerView { args: old(self)@.args.push(arbitrary@), ..old(self)@ }),
    {
        self.arbitrary.push(arbitrary.to_owned());
        assert(self@.args =~= old(self)@.args.push(arbitrary@));
    }

    /// Whether `arbitrary` is one of the arguments.
    pub fn have_arbitrary(&self, arbitrary: &str) -> (r: bool)
        ensures
            r == self@.args.contains(arbitrary@),
    {
        let mut i: usize = 0;
        while i < self.arbitrary.len()
            invariant
                i <= self.arbitrary@.len(),
                forall|k: int| 0 <= k < i ==> self@.args[k] != arbitrary@,
            decreases self.arbitrary@.len() - i,
        {
            if str_eq(self.arbitrary[i].as_str(), arbitrary) {
                assert(self@.args[i as int] == arbitrary@);
                return true;
            }
            i = i + 1;
        }
        false
    }

    pub fn arbitrary(&self) -> (r: Vec<String>)
        ensures
            strings_view(r@) == self@.args,
    {
        copy_strings(&self.arbitrary)
    }

    pub fn name(&self) -> (r: String)
        ensures
            r@ == self@.name,
    {
        self.name.clone()
    }

    /// Whether one of `assemblers` is named `value`.
    pub fn contain(assemblers: &Vec<Assembler>, value: &str) -> (r: bool)
        ensures
            r == exists|i: int| 0 <= i < assemblers@.len() && (#[trigger] assemblers@[i])@.name == value@,
    {
        let mut i: usize = 0;
        while i < assemblers.len()
            invariant
                i <= assemblers@.len(),
                forall|k: int| 0 <= k < i ==> (#[trigger] assemblers@[k])@.name != value@,
            decreases assemblers@.len() - i,
        {
            if str_eq(assemblers[i].name.as_str(), value) {
                return true;
            }
            i = i + 1;
        }
        false
    }
}

/// Which kind of declaration is open.
#[derive(Debug, Clone, Copy, PartialEq, Eq, Structural)]
pub enum Open {
    Idle,
    Searcher,
    Assembler,
    Symbol,
}

/// A finished declaration.
pub enum Entity {
    Searcher(Searcher),
    Assembler(Assembler),
    Symbol(Symbol),
}

pub enum EntityView {
    Searcher(Seq<char>, Seq<char>),
    Assembler(AssemblerView),
    Symbol(Seq<char>, Seq<char>),
}

/// A finished declaration with the line of its head.
pub struct Declared {
    pub line: usize,
    pub entity: Entity,
}

pub struct DeclaredView {
    pub line: nat,
    pub entity: EntityView,
}

impl View for Declared {
    type V = DeclaredView;

    open spec fn view(&self) -> DeclaredView {
        DeclaredView {
            line: self.line as nat,
            entity: match self.entity {
                Entity::Searcher(s) => EntityView::Searcher(s@.0, s@.1),
                Entity::Assembler(a) => EntityView::Assembler(a@),
                Entity::Symbol(s) => EntityView::Symbol(s@.0, s@.1),
            },
        }
    }
}

/// The declaration line of `d`.
pub open spec fn mount_line(d: DeclaredView) -> Seq<char> {
    match d.entity {
        EntityView::Searcher(n, p) => mount_searcher(n, p),
        EntityView::Assembler(a) => mount_assembler(a.name, a.args),
        EntityView::Symbol(n, v) => mount_symbol(n, v),
    }
}

/// The numbered line of `d`: its head's line number, a space, and its declaration line.
pub open spec fn numbered_line(d: DeclaredView) -> Seq<char> {
    decimal(d.line) + seq![' '] + mount_line(d)
}

impl Declared {
    /// `<line> <declaration line>`.
    pub fn numbered(&self) -> (r: String)
        ensures
            r@ == numbered_line(self@),
    {
        let mut r = String::new();
        push_decimal(&mut r, self.line);
        push_char(&mut r, ' ');
        let m = self.mount();
        push_str(&mut r, m.as_str());
        assert(r@ =~= numbered_line(self@));
        r
    }

    /// The normalized line of this declaration.
    pub fn mount(&self) -> (r: String)
        ensures
            r@ == mount_line(self@),
    {
        match &self.entity {
            Entity::Searcher(s) => s.mount(),
            Entity::Assembler(a) => a.mount(),
            Entity::Symbol(s) => s.mount(),
        }
    }
}

/// What the grouper reports without stopping: an open assembler printed on
/// request, or a continuation mark where no assembler is open.
pub enum Note {
    Echo(String),
    Misplaced { open: Open, line: usize, column: usize },
}

pub enum NoteView {
    Echo(Seq<char>),
    Misplaced(Open, nat, nat),
}

impl View for Note {
    type V = NoteView;

    open spec fn view(&self) -> NoteView {
        match self {
            Note::Echo(s) => NoteView::Echo(s@),
            Note::Misplaced { open, line, column } => NoteView::Misplaced(*open, *line as nat, *column as nat),
        }
    }
}

/// The grouper's state: the open declaration, where the current line stands,
/// and what was finished so far.
pub struct GroupState {
    pub open: Open,
    pub se: (Seq<char>, Seq<char>),
    pub asmb: AssemblerView,
    pub sy: (Seq<char>, Seq<char>),
    pub def_line: nat,
    pub pos: nat,
    pub in_comment: bool,
    pub out: Seq<DeclaredView>,
    pub notes: Seq<NoteView>,
}

pub open spec fn initial_group() -> GroupState {
    GroupState {
        open: Open::Idle,
        se: (Seq::empty(), Seq::empty()),
        asmb: AssemblerView { name: Seq::empty(), args: Seq::empty(), line: 0 },
        sy: (Seq::empty(), Seq::empty()),
        def_line: 0,
        pos: 0,
        in_comment: false,
        out: Seq::empty(),
        notes: Seq::empty(),
    }
}

/// The finished declarations once the open one is closed.
pub open spec fn flushed(g: GroupState) -> Seq<DeclaredView> {
    match g.open {
        Open::Idle => g.out,
        Open::Searcher => g.out.push(DeclaredView { line: g.def_line, entity: EntityView::Searcher(g.se.0, g.se.1) }),
        Open::Assembler => g.out.push(DeclaredView { line: g.def_line, entity: EntityView::Assembler(g.asmb) }),
        Open::Symbol => g.out.push(DeclaredView { line: g.def_line, entity: EntityView::Symbol(g.sy.0, g.sy.1) }),
    }
}

/// The open declaration extended by one argument.
pub open spec fn add_arg(g: GroupState, c: Seq<char>) -> GroupState {
    match g.open {
        Open::Idle => g,
        Open::Searcher => GroupState { se: (g.se.0, spaced(g.se.1, c)), ..g },
        Open::Assembler => GroupState { asmb: AssemblerView { args: g.asmb.args.push(c), ..g.asmb }, ..g },
        Open::Symbol => GroupState { sy: (g.sy.0, spaced(g.sy.1, c)), ..g },
    }
}

/// One token through the grouper; fails on a line head of no known kind.
pub open spec fn group_step(g: GroupState, t: TokenView) -> Result<GroupState, TokenView> {
    let pos: nat = if g.pos >= 3 { 3 } else { g.pos + 1 };
    if t.ty == "NEW_LINE"@ {
        Ok(GroupState { pos: 0, in_comment: false, ..g })
    } else if pos == 1 && !g.in_comment {
        if t.ty == "comment"@ {
            Ok(GroupState { pos, in_comment: true, ..g })
        } else if t.ty == "searcher"@ {
            Ok(GroupState { open: Open::Searcher, se: (strip_ends(t.content), Seq::empty()), def_line: t.line, out: flushed(g), pos, ..g })
        } else if t.ty == "assembler"@ {
            Ok(GroupState {
                open: Open::Assembler,
                asmb: AssemblerView { name: strip_ends(t.content), args: Seq::empty(), line: 0 },
                def_line: t.line,
                out: flushed(g),
                pos,
                ..g
            })
        } else if t.ty == "symbol"@ {
            Ok(GroupState { open: Open::Symbol, sy: (strip_ends(t.content), Seq::empty()), def_line: t.line, out: flushed(g), pos, ..g })
        } else if t.ty == "colon"@ || t.ty == "pipe"@ {
            if g.open == Open::Assembler {
                Ok(GroupState { notes: g.notes.push(NoteView::Echo(mount_assembler(g.asmb.name, g.asmb.args))), pos, ..g })
            } else {
                Ok(GroupState { notes: g.notes.push(NoteView::Misplaced(g.open, t.line, t.start)), pos, ..g })
            }
        } else {
            Err(t)
        }
    } else if pos > 2 && !g.in_comment {
        Ok(add_arg(GroupState { pos, ..g }, t.content))
    } else {
        Ok(GroupState { pos, ..g })
    }
}

/// The grouper's state after `tokens`, or the first line head of no known kind.
pub open spec fn group(tokens: Seq<TokenView>) -> Result<GroupState, TokenView>
    decreases tokens.len(),
{
    if tokens.len() == 0 {
        Ok(initial_group())
    } else {
        match group(tokens.drop_last()) {
            Ok(g) => group_step(g, tokens.last()),
            Err(t) => Err(t),
        }
    }
}

struct Grouper {
    open: Open,
    searcher: Searcher,
    assembler: Assembler,
    symbol: Symbol,
    def_line: usize,
    pos: usize,
    in_comment: bool,
    out: Vec<Declared>,
    notes: Vec<Note>,
}

impl View for Grouper {
    type V = GroupState;

    closed spec fn view(&self) -> GroupState {
        GroupState {
            open: self.open,
            se: self.searcher@,
            asmb: self.assembler@,
            sy: self.symbol@,
            def_line: self.def_line as nat,
            pos: self.pos as nat,
            in_comment: self.in_comment,
            out: self.out@.map_values(|d: Declared| d@),
            notes: self.notes@.map_values(|n: Note| n@),
        }
    }
}

impl Assembler {
    fn copy(&self) -> (r: Assembler)
        ensures
            r@ == self@,
    {
        Assembler { name: self.name.as_str().to_owned(), arbitrary: copy_strings(&self.arbitrary), line: self.line }
    }
}

impl Grouper {
    fn new() -> (r: Grouper)
        ensures
            r@ == initial_group(),
    {
        proof {
            reveal_strlit("");
            assert(""@ =~= Seq::<char>::empty());
        }
        let r = Grouper {
            open: Open::Idle,
            searcher: Searcher::new("", ""),
            assembler: Assembler::new(String::new(), Vec::new()),
            symbol: Symbol::new("", ""),
            def_line: 0,
            pos: 0,
            in_comment: false,
            out: Vec::new(),
            notes: Vec::new(),
        };
        assert(r@.out =~= Seq::<DeclaredView>::empty());
        assert(r@.notes =~= Seq::<NoteView>::empty());
        assert(r@.asmb.args =~= Seq::<Seq<char>>::empty());
        r
    }

    /// Closes the open declaration into the finished ones.
    fn flush(&mut self)
        ensures
            final(self)@ == (GroupState { out: flushed(old(self)@), ..old(self)@ }),
    {
        let ghost before = self.out@;
        match self.open {
            Open::Idle => {},
            Open::Searcher => {
                let d = Declared {
                    line: self.def_line,
                    entity: Entity::Searcher(Searcher::new(self.searcher.name.as_str(), self.searcher.regex.as_str())),
                };
                self.out.push(d);
            },
            Open::Assembler => {
                let d = Declared { line: self.def_line, entity: Entity::Assembler(self.assembler.copy()) };
                self.out.push(d);
            },
            Open::Symbol => {
                let d = Declared {
                    line: self.def_line,
                    entity: Entity::Symbol(Symbol::new(self.symbol.name.as_str(), self.symbol.arbitrary.as_str())),
                };
                self.out.push(d);
            },
        }
        assert(self@.out =~= flushed(old(self)@));
    }

    fn step(&mut self, t: &Token) -> (r: Result<(), ()>)
        ensures
            match group_step(old(self)@, t@) {
                Ok(g) => r is Ok && final(self)@ == g,
                Err(_) => r is Err,
            },
    {
        proof {
            reveal_strlit("");
            assert(""@ =~= Seq::<char>::empty());
        }
        let pos: usize = if self.pos >= 3 { 3 } else { self.pos + 1 };
        let ty = t.ty.as_str();
        if str_eq(ty, "NEW_LINE") {
            self.pos = 0;
            self.in_comment = false;
            return Ok(());
        }
        if pos == 1 && !self.in_comment {
            self.pos = pos;
            if str_eq(ty, "comment") {
                self.in_comment = true;
            } else if str_eq(ty, "searcher") {
                self.flush();
                self.open = Open::Searcher;
                let name = strip_ends_of(t.content.as_str());
                self.searcher = Searcher::new(name.as_str(), "");
                self.def_line = t.line;
            } else if str_eq(ty, "assembler") {
                self.flush();
                self.open = Open::Assembler;
                let name = strip_ends_of(t.content.as_str());
                self.assembler = Assembler::new(name, Vec::new());
                self.def_line = t.line;
                assert(self@.asmb.args =~= Seq::<Seq<char>>::empty());
            } else if str_eq(ty, "symbol") {
                self.flush();
                self.open = Open::Symbol;
                let name = strip_ends_of(t.content.as_str());
                self.symbol = Symbol::new(name.as_str(), "");
                self.def_line = t.line;
            } else if str_eq(ty, "colon") || str_eq(ty, "pipe") {
                let ghost notes = self@.notes;
                if self.open == Open::Assembler {
                    let m = self.assembler.mount();
                    self.notes.push(Note::Echo(m));
                } else {
                    self.notes.push(Note::Misplaced { open: self.open, line: t.line, column: t.start });
                }
                assert(self@.notes =~= notes.push(self.notes@.last()@));
            } else {
                return Err(());
            }
            return Ok(());
        }
        self.pos = pos;
        if pos > 2 && !self.in_comment {
            let c = t.content.as_str();
            match self.open {
                Open::Idle => {},
                Open::Searcher => self.searcher.add_arbitrary(c),
                Open::Assembler => self.assembler.add_arbitrary(c),
                Open::Symbol => self.symbol.add_arbitrary(c),
            }
        }
        Ok(())
    }
}

/// The kind of entity a reference points at.
#[derive(Debug, Clone, Copy, PartialEq, Eq, Structural)]
pub enum Kind {
    Searcher,
    Assembler,
    Symbol,
}

/// Why a document was refused.
#[derive(Debug)]
pub enum TflaError {
    /// A rule's pattern does not compile.
    BadPattern { kind: String, pattern: String },
    /// No rule consumes anything of the rest of the source.
    ScanStall { rest: String },
    /// A line starts with a token that opens no declaration.
    UnknownHeadToken { content: String, kind: String, line: usize, column: usize },
    /// An assembler refers to an entity that is not declared.
    UnresolvedReference { assembler: String, target_kind: Kind, target: String, line: usize },
    /// An assembler expands to itself, directly or through others.
    CircularExpansion { assembler: String, line: usize, direct: bool },
}

pub enum ErrorView {
    BadPattern(Seq<char>, Seq<char>),
    ScanStall(Seq<char>),
    UnknownHeadToken(Seq<char>, Seq<char>, nat, nat),
    UnresolvedReference(Seq<char>, Kind, Seq<char>, nat),
    CircularExpansion(Seq<char>, nat, bool),
}

impl View for TflaError {
    type V = ErrorView;

    open spec fn view(&self) -> ErrorView {
        match self {
            TflaError::BadPattern { kind, pattern } => ErrorView::BadPattern(kind@, pattern@),
            TflaError::ScanStall { rest } => ErrorView::ScanStall(rest@),
            TflaError::UnknownHeadToken { content, kind, line, column } => ErrorView::UnknownHeadToken(
                content@,
                kind@,
                *line as nat,
                *column as nat,
            ),
            TflaError::UnresolvedReference { assembler, target_kind, target, line } => ErrorView::UnresolvedReference(
                assembler@,
                *target_kind,
                target@,
                *line as nat,
            ),
            TflaError::CircularExpansion { assembler, line, direct } => ErrorView::CircularExpansion(
                assembler@,
                *line as nat,
                *direct,
            ),
        }
    }
}

/// The scan state at the start of a document.
pub open spec fn start_state() -> ScanState {
    ScanState { line: 1, col: 1, in_line: false, in_block: false }
}

/// The tokens of `code` under `rules`, with whitespace elided.
pub open spec fn tokens_of(rules: Seq<(Seq<char>, Seq<char>)>, code: Seq<char>) -> Result<Seq<TokenView>, ErrorView> {
    match first_bad(rules) {
        Some(i) => Err(ErrorView::BadPattern(rules[i].0, rules[i].1)),
        None => {
            let o = scan(rules, true, start_state(), code);
            match o.stall {
                Some(rest) => Err(ErrorView::ScanStall(rest)),
                None => Ok(o.tokens),
            }
        },
    }
}

/// The declarations and notes of `code` under `rules`.
pub open spec fn parsed(rules: Seq<(Seq<char>, Seq<char>)>, code: Seq<char>) -> Result<(Seq<DeclaredView>, Seq<NoteView>), ErrorView> {
    match tokens_of(rules, code) {
        Err(e) => Err(e),
        Ok(ts) => match group(ts) {
            Err(t) => Err(ErrorView::UnknownHeadToken(t.content, t.ty, t.line, t.start)),
            Ok(g) => Ok((flushed(g), g.notes)),
        },
    }
}

/// The normalized document of the declarations `ds`, one line each.
pub open spec fn document(ds: Seq<DeclaredView>) -> Seq<char> {
    join_lines(ds.map_values(|d: DeclaredView| mount_line(d)))
}

/// The declarations of a document, in order, and the notes on it.
pub struct Parsed {
    pub decls: Vec<Declared>,
    pub notes: Vec<Note>,
}

/// A copy of the rule pairs `v`.
fn copy_pairs(v: &Vec<(String, String)>) -> (r: Vec<(String, String)>)
    ensures
        pairs_view(r@) == pairs_view(v@),
{
    let mut r: Vec<(String, String)> = Vec::new();
    let mut i: usize = 0;
    while i < v.len()
        invariant
            i <= v.len(),
            r@.len() == i,
            forall|k: int| 0 <= k < i ==> (#[trigger] r@[k]).0@ == v@[k].0@ && r@[k].1@ == v@[k].1@,
        decreases v.len() - i,
    {
        let a = v[i].0.as_str().to_owned();
        let b = v[i].1.as_str().to_owned();
        r.push((a, b));
        i = i + 1;
    }
    assert(pairs_view(r@) =~= pairs_view(v@));
    r
}

/// A source document with the rules of its lexical grammar.
pub struct TflaCC {
    code: String,
    searchers: Vec<(String, String)>,
}

impl TflaCC {
    pub closed spec fn code_view(&self) -> Seq<char> {
        self.code@
    }

    pub closed spec fn rules_view(&self) -> Seq<(Seq<char>, Seq<char>)> {
        pairs_view(self.searchers@)
    }

    pub fn new(code: &str, searchers: Vec<(String, String)>) -> (r: TflaCC)
        ensures
            r.code_view() == code@,
            r.rules_view() == pairs_view(searchers@),
    {
        TflaCC { code: code.to_owned(), searchers }
    }

    /// The tokens of the document, whitespace left out.
    pub fn tokenize(&self) -> (r: Result<Vec<Token>, TflaError>)
        requires
            self.code_view().len() + 2 < usize::MAX,
        ensures
            match tokens_of(self.rules_view(), self.code_view()) {
                Ok(ts) => r matches Ok(v) && v@.map_values(|t: Token| t@) == ts,
                Err(e) => r matches Err(x) && x@ == e,
            },
    {
        let rules = copy_pairs(&self.searchers);
        match TFLA::new(rules, Vec::new(), true) {
            Err(b) => Err(TflaError::BadPattern { kind: b.kind, pattern: b.pattern }),
            Ok(mut cc) => {
                match cc.tokenize(self.code.as_str()) {
                    Err(s) => Err(TflaError::ScanStall { rest: s.rest }),
                    Ok(()) => {
                        let v = cc.into_tokens();
                        assert(v@.map_values(|t: Token| t@) =~= Seq::<TokenView>::empty() + scan(
                            self.rules_view(),
                            true,
                            start_state(),
                            self.code_view(),
                        ).tokens);
                        Ok(v)
                    },
                }
            },
        }
    }

    /// Groups the tokens into declarations.
    pub fn parse(&self) -> (r: Result<Parsed, TflaError>)
        requires
            self.code_view().len() + 2 < usize::MAX,
        ensures
            match parsed(self.rules_view(), self.code_view()) {
                Ok((ds, ns)) => r matches Ok(p) && p.decls@.map_values(|d: Declared| d@) == ds
                    && p.notes@.map_values(|n: Note| n@) == ns,
                Err(e) => r matches Err(x) && x@ == e,
            },
    {
        let tokens = self.tokenize()?;
        let ghost ts = tokens@.map_values(|t: Token| t@);
        let mut g = Grouper::new();
        let mut i: usize = 0;
        while i < tokens.len()
            invariant
                i <= tokens@.len(),
                ts == tokens@.map_values(|t: Token| t@),
                tokens_of(self.rules_view(), self.code_view()) == Ok::<Seq<TokenView>, ErrorView>(ts),
                group(ts.subrange(0, i as int)) == Ok::<GroupState, TokenView>(g@),
            decreases tokens@.len() - i,
        {
            assert(ts.subrange(0, i + 1).drop_last() =~= ts.subrange(0, i as int));
            let t = &tokens[i];
            match g.step(t) {
                Ok(()) => {},
                Err(()) => {
                    assert(group(ts.subrange(0, i + 1)) == Err::<GroupState, TokenView>(t@));
                    assert(group(ts) == Err::<GroupState, TokenView>(t@)) by {
                        lemma_group_err_sticks(ts, i as int + 1);
                    }
                    return Err(
                        TflaError::UnknownHeadToken {
                            content: t.content.as_str().to_owned(),
                            kind: t.ty.as_str().to_owned(),
                            line: t.line,
                            column: t.start,
                        },
                    );
                },
            }
            i = i + 1;
        }
        assert(ts.subrange(0, tokens@.len() as int) =~= ts);
        g.flush();
        Ok(Parsed { decls: g.out, notes: g.notes })
    }

    /// The normalized document: one line per declaration, in order.
    pub fn digest(&self) -> (r: Result<String, TflaError>)
        requires
            self.code_view().len() + 2 < usize::MAX,
        ensures
            match parsed(self.rules_view(), self.code_view()) {
                Ok((ds, _)) => r matches Ok(s) && s@ == document(ds),
                Err(e) => r matches Err(x) && x@ == e,
            },
    {
        let p = self.parse()?;
        let lines = mount_all(&p.decls);
        Ok(join_with_newlines(&lines))
    }
}

/// Once the grouper fails, it fails on the same token for every longer stream.
proof fn lemma_group_err_sticks(ts: Seq<TokenView>, k: int)
    requires
        0 <= k <= ts.len(),
        group(ts.subrange(0, k)) is Err,
    ensures
        group(ts) == group(ts.subrange(0, k)),
    decreases ts.len() - k,
{
    if k == ts.len() {
        assert(ts.subrange(0, k) =~= ts);
    } else {
        assert(ts.subrange(0, k + 1).drop_last() =~= ts.subrange(0, k));
        lemma_group_err_sticks(ts, k + 1);
    }
}

/// The declaration lines of `ds`, in order.
fn mount_all(ds: &Vec<Declared>) -> (r: Vec<String>)
    ensures
        r@.map_values(|s: String| s@) == ds@.map_values(|d: Declared| d@).map_values(|d: DeclaredView| mount_line(d)),
{
    let mut r: Vec<String> = Vec::new();
    let mut i: usize = 0;
    while i < ds.len()
        invariant
            i <= ds.len(),
            r@.len() == i,
            forall|k: int| 0 <= k < i ==> (#[trigger] r@[k])@ == mount_line(ds@[k]@),
        decreases ds.len() - i,
    {
        let m = ds[i].mount();
        r.push(m);
        i = i + 1;
    }
    assert(r@.map_values(|s: String| s@) =~= ds@.map_values(|d: Declared| d@).map_values(|d: DeclaredView| mount_line(d)));
    r
}

/// The views of the declarations `ds`.
pub open spec fn decls_view(ds: Seq<Declared>) -> Seq<DeclaredView> {
    ds.map_values(|d: Declared| d@)
}

/// The name of a declaration.
pub open spec fn decl_name(d: DeclaredView) -> Seq<char> {
    match d.entity {
        EntityView::Searcher(n, _) => n,
        EntityView::Assembler(a) => a.name,
        EntityView::Symbol(n, _) => n,
    }
}

pub open spec fn decl_kind(d: DeclaredView) -> Kind {
    match d.entity {
        EntityView::Searcher(..) => Kind::Searcher,
        EntityView::Assembler(..) => Kind::Assembler,
        EntityView::Symbol(..) => Kind::Symbol,
    }
}

/// Whether a reference to the entity of kind `k` named `n` resolves in `ds`.
pub open spec fn resolves(ds: Seq<DeclaredView>, k: Kind, n: Seq<char>) -> bool {
    exists|i: int| 0 <= i < ds.len() && decl_kind(#[trigger] ds[i]) == k && decl_name(ds[i]) == n
}

/// Whether `d` is an assembler with an argument `<x>`.
pub open spec fn refers(d: DeclaredView, x: Seq<char>) -> bool {
    d.entity matches EntityView::Assembler(a) && tags(a.args).contains("as-"@ + x)
}

/// Whether declaration `i` expands into declaration `j`, an assembler.
pub open spec fn edge(ds: Seq<DeclaredView>, i: int, j: int) -> bool {
    decl_kind(ds[j]) == Kind::Assembler && refers(ds[i], decl_name(ds[j]))
}

/// The declarations reached from declaration `a` by paths of at most `k + 1` expansions.
pub open spec fn marks(ds: Seq<DeclaredView>, a: int, k: nat) -> Seq<bool>
    decreases k,
{
    if k == 0 {
        Seq::new(ds.len(), |j: int| edge(ds, a, j))
    } else {
        let m = marks(ds, a, (k - 1) as nat);
        Seq::new(ds.len(), |j: int| m[j] || exists|i: int| 0 <= i < ds.len() && m[i] && edge(ds, i, j))
    }
}

/// Whether declaration `j`, reached from declaration `a`, expands back into
/// `a`'s name.
pub open spec fn closes(ds: Seq<DeclaredView>, a: int, j: int) -> bool {
    0 <= j < ds.len() && marks(ds, a, ds.len())[j] && refers(ds[j], decl_name(ds[a]))
}

/// Where the expansion of declaration `a` comes back to its own name: `a`
/// itself when it refers to its own name, else the first reached declaration
/// that does; none when the expansion never comes back.
pub open spec fn cycle_witness(ds: Seq<DeclaredView>, a: int) -> Option<int> {
    if refers(ds[a], decl_name(ds[a])) {
        Some(a)
    } else if exists|j: int| closes(ds, a, j) {
        Some(choose|j: int| closes(ds, a, j) && forall|k: int| 0 <= k < j ==> !closes(ds, a, k))
    } else {
        None
    }
}

pub open spec fn has_prefix(t: Seq<char>, p: Seq<char>) -> bool {
    p.len() <= t.len() && t.subrange(0, p.len() as int) == p
}

/// What is wrong with the tagged argument `t` of assembler `a`, if anything.
#[verifier::opaque]
pub open spec fn tag_fault(ds: Seq<DeclaredView>, a: int, t: Seq<char>) -> Option<ErrorView> {
    let name = decl_name(ds[a]);
    let line = ds[a].line;
    if has_prefix(t, "sy-"@) && !resolves(ds, Kind::Symbol, t.subrange("sy-"@.len() as int, t.len() as int)) {
        Some(ErrorView::UnresolvedReference(name, Kind::Symbol, t.subrange("sy-"@.len() as int, t.len() as int), line))
    } else if has_prefix(t, "se-"@) && !resolves(ds, Kind::Searcher, t.subrange("se-"@.len() as int, t.len() as int)) {
        Some(ErrorView::UnresolvedReference(name, Kind::Searcher, t.subrange("se-"@.len() as int, t.len() as int), line))
    } else if has_prefix(t, "as-"@) {
        if !resolves(ds, Kind::Assembler, t.subrange("as-"@.len() as int, t.len() as int)) {
            Some(ErrorView::UnresolvedReference(name, Kind::Assembler, t.subrange("as-"@.len() as int, t.len() as int), line))
        } else if cycle_witness(ds, a) is Some {
            let w = cycle_witness(ds, a)->0;
            Some(ErrorView::CircularExpansion(name, ds[w].line, decl_name(ds[w]) == name))
        } else {
            None
        }
    } else {
        None
    }
}

/// The first fault among the tagged arguments `ts` of assembler `a`.
pub open spec fn first_tag_fault(ds: Seq<DeclaredView>, a: int, ts: Seq<Seq<char>>) -> Option<ErrorView>
    decreases ts.len(),
{
    if ts.len() == 0 {
        None
    } else {
        match first_tag_fault(ds, a, ts.drop_last()) {
            Some(e) => Some(e),
            None => tag_fault(ds, a, ts.last()),
        }
    }
}

pub open spec fn decl_fault(ds: Seq<DeclaredView>, a: int) -> Option<ErrorView> {
    match ds[a].entity {
        EntityView::Assembler(v) => first_tag_fault(ds, a, tags(v.args)),
        _ => None,
    }
}

/// The first fault among the first `k` declarations.
pub open spec fn first_fault(ds: Seq<DeclaredView>, k: int) -> Option<ErrorView>
    decreases k,
{
    if k <= 0 {
        None
    } else {
        match first_fault(ds, k - 1) {
            Some(e) => Some(e),
            None => decl_fault(ds, k - 1),
        }
    }
}

fn name_of(d: &Declared) -> (r: String)
    ensures
        r@ == decl_name(d@),
{
    match &d.entity {
        Entity::Searcher(s) => s.name.clone(),
        Entity::Assembler(a) => a.name.clone(),
        Entity::Symbol(s) => s.name.clone(),
    }
}

fn kind_of(d: &Declared) -> (r: Kind)
    ensures
        r == decl_kind(d@),
{
    match &d.entity {
        Entity::Searcher(_) => Kind::Searcher,
        Entity::Assembler(_) => Kind::Assembler,
        Entity::Symbol(_) => Kind::Symbol,
    }
}

/// Whether a reference to the entity of kind `k` named `n` resolves in `ds`.
pub fn resolves_in(ds: &Vec<Declared>, k: Kind, n: &str) -> (r: bool)
    ensures
        r == resolves(decls_view(ds@), k, n@),
{
    let ghost dv = decls_view(ds@);
    let mut i: usize = 0;
    while i < ds.len()
        invariant
            i <= ds@.len(),
            dv == decls_view(ds@),
            forall|j: int| 0 <= j < i ==> !(decl_kind(#[trigger] dv[j]) == k && decl_name(dv[j]) == n@),
        decreases ds@.len() - i,
    {
        if kind_of(&ds[i]) == k {
            let m = name_of(&ds[i]);
            if str_eq(m.as_str(), n) {
                assert(decl_kind(dv[i as int]) == k && decl_name(dv[i as int]) == n@);
                return true;
            }
        }
        i = i + 1;
    }
    false
}

/// Whether `d` is an assembler with the tagged argument `t`.
fn has_tag(d: &Declared, t: &str) -> (r: bool)
    ensures
        r == (d@.entity matches EntityView::Assembler(a) && tags(a.args).contains(t@)),
{
    match &d.entity {
        Entity::Assembler(a) => {
            let ghost ts = tags(a@.args);
            let mut i: usize = 0;
            while i < a.arbitrary.len()
                invariant
                    i <= a.arbitrary@.len(),
                    ts == tags(a@.args),
                    ts.len() == a.arbitrary@.len(),
                    d@.entity == EntityView::Assembler(a@),
                    forall|k: int| 0 <= k < i ==> ts[k] != t@,
                decreases a.arbitrary@.len() - i,
            {
                let g = tag_of(a.arbitrary[i].as_str());
                if str_eq(g.as_str(), t) {
                    assert(ts[i as int] == t@);
                    assert(ts.contains(t@));
                    return true;
                }
                i = i + 1;
            }
            false
        },
        _ => false,
    }
}

/// `as-` followed by `n`.
fn assembler_tag(n: &str) -> (r: String)
    ensures
        r@ == "as-"@ + n@,
{
    let mut r = String::new();
    push_str(&mut r, "as-");
    push_str(&mut r, n);
    assert(r@ =~= "as-"@ + n@);
    r
}

fn edge_holds(ds: &Vec<Declared>, i: usize, j: usize) -> (r: bool)
    requires
        i < ds@.len(),
        j < ds@.len(),
    ensures
        r == edge(decls_view(ds@), i as int, j as int),
{
    if kind_of(&ds[j]) != Kind::Assembler {
        return false;
    }
    let t = assembler_tag(name_of(&ds[j]).as_str());
    has_tag(&ds[i], t.as_str())
}

/// Where the expansion of declaration `a` comes back to its own name, if it does.
pub fn find_cycle(ds: &Vec<Declared>, a: usize) -> (r: Option<usize>)
    requires
        a < ds@.len(),
    ensures
        match cycle_witness(decls_view(ds@), a as int) {
            Some(w) => r matches Some(x) && x as int == w,
            None => r is None,
        },
        r matches Some(w) ==> w < ds@.len(),
{
    let ghost dv = decls_view(ds@);
    let n = ds.len();
    let own = assembler_tag(name_of(&ds[a]).as_str());
    if has_tag(&ds[a], own.as_str()) {
        return Some(a);
    }
    let mut m: Vec<bool> = Vec::new();
    let mut j: usize = 0;
    while j < n
        invariant
            n == ds@.len(),
            a < n,
            dv == decls_view(ds@),
            j <= n,
            m@.len() == j,
            forall|k: int| 0 <= k < j ==> m@[k] == edge(dv, a as int, k),
        decreases n - j,
    {
        let e = edge_holds(ds, a, j);
        m.push(e);
        j = j + 1;
    }
    assert(m@ =~= marks(dv, a as int, 0));
    let mut round: usize = 0;
    while round < n
        invariant
            n == ds@.len(),
            dv == decls_view(ds@),
            round <= n,
            m@ == marks(dv, a as int, round as nat),
        decreases n - round,
    {
        let mut next: Vec<bool> = Vec::new();
        let mut j: usize = 0;
        while j < n
            invariant
                n == ds@.len(),
                dv == decls_view(ds@),
                m@ == marks(dv, a as int, round as nat),
                m@.len() == n,
                j <= n,
                next@.len() == j,
                forall|k: int| 0 <= k < j ==> next@[k] == (m@[k] || exists|i: int| 0 <= i < n && m@[i] && edge(dv, i, k)),
            decreases n - j,
        {
            let mut hit = m[j];
            let mut i: usize = 0;
            while i < n && !hit
                invariant
                    n == ds@.len(),
                    dv == decls_view(ds@),
                    m@.len() == n,
                    j < n,
                    i <= n,
                    hit ==> (m@[j as int] || exists|x: int| 0 <= x < n && m@[x] && edge(dv, x, j as int)),
                    !hit ==> !m@[j as int] && forall|x: int| 0 <= x < i ==> !(m@[x] && edge(dv, x, j as int)),
                decreases n - i,
            {
                if m[i] && edge_holds(ds, i, j) {
                    hit = true;
                }
                i = i + 1;
            }
            next.push(hit);
            j = j + 1;
        }
        assert(next@ =~= marks(dv, a as int, (round + 1) as nat));
        m = next;
        round = round + 1;
    }
    let mut j: usize = 0;
    while j < n
        invariant
            n == ds@.len(),
            dv == decls_view(ds@),
            a < n,
            m@ == marks(dv, a as int, n as nat),
            m@.len() == n,
            j <= n,
            own@ == "as-"@ + decl_name(dv[a as int]),
            !refers(dv[a as int], decl_name(dv[a as int])),
            forall|k: int| 0 <= k < j ==> !(m@[k] && refers(dv[k], decl_name(dv[a as int]))),
        decreases n - j,
    {
        if m[j] && has_tag(&ds[j], own.as_str()) {
            proof {
                assert(closes(dv, a as int, j as int));
                let c = choose|c: int| closes(dv, a as int, c) && forall|k: int| 0 <= k < c ==> !closes(dv, a as int, k);
                assert(c == j) by {
                    if c < j {
                        assert(!closes(dv, a as int, c));
                    }
                    if c > j {
                        assert(!closes(dv, a as int, j as int));
                    }
                }
            }
            return Some(j);
        }
        j = j + 1;
    }
    proof {
        assert forall|k: int| !closes(dv, a as int, k) by {
            if 0 <= k < n {
                assert(!(m@[k] && refers(dv[k], decl_name(dv[a as int]))));
            }
        }
    }
    None
}

/// What is wrong with the tagged argument `t` of declaration `a`, if anything.
fn check_tag(ds: &Vec<Declared>, a: usize, t: &str) -> (r: Option<TflaError>)
    requires
        a < ds@.len(),
    ensures
        match tag_fault(decls_view(ds@), a as int, t@) {
            Some(e) => r matches Some(x) && x@ == e,
            None => r is None,
        },
{
    reveal(tag_fault);
    let n = t.unicode_len();
    let sy_p = starts_with(t, "sy-");
    let se_p = starts_with(t, "se-");
    let as_p = starts_with(t, "as-");
    if sy_p && !resolves_in(ds, Kind::Symbol, t.substring_char("sy-".unicode_len(), n)) {
        let target = t.substring_char("sy-".unicode_len(), n).to_owned();
        Some(TflaError::UnresolvedReference { assembler: name_of(&ds[a]), target_kind: Kind::Symbol, target, line: ds[a].line })
    } else if se_p && !resolves_in(ds, Kind::Searcher, t.substring_char("se-".unicode_len(), n)) {
        let target = t.substring_char("se-".unicode_len(), n).to_owned();
        Some(TflaError::UnresolvedReference { assembler: name_of(&ds[a]), target_kind: Kind::Searcher, target, line: ds[a].line })
    } else if as_p {
        let target = t.substring_char("as-".unicode_len(), n);
        if !resolves_in(ds, Kind::Assembler, target) {
            Some(TflaError::UnresolvedReference {
                assembler: name_of(&ds[a]),
                target_kind: Kind::Assembler,
                target: target.to_owned(),
                line: ds[a].line,
            })
        } else {
            match find_cycle(ds, a) {
                Some(w) => {
                    let name = name_of(&ds[a]);
                    let closer = name_of(&ds[w]);
                    let direct = str_eq(closer.as_str(), name.as_str());
                    proof {
                        let dv = decls_view(ds@);
                        assert(dv[w as int] == ds@[w as int]@);
                        assert(dv[a as int] == ds@[a as int]@);
                        assert(cycle_witness(dv, a as int) == Some(w as int));
                    }
                    Some(TflaError::CircularExpansion { assembler: name, line: ds[w].line, direct })
                },
                None => None,
            }
        }
    } else {
        None
    }
}

proof fn lemma_tag_fault_sticks(ds: Seq<DeclaredView>, a: int, ts: Seq<Seq<char>>, k: int)
    requires
        0 <= k <= ts.len(),
        first_tag_fault(ds, a, ts.subrange(0, k)) is Some,
    ensures
        first_tag_fault(ds, a, ts) == first_tag_fault(ds, a, ts.subrange(0, k)),
    decreases ts.len() - k,
{
    if k == ts.len() {
        assert(ts.subrange(0, k) =~= ts);
    } else {
        assert(ts.subrange(0, k + 1).drop_last() =~= ts.subrange(0, k));
        lemma_tag_fault_sticks(ds, a, ts, k + 1);
    }
}

proof fn lemma_fault_sticks(ds: Seq<DeclaredView>, k: int, n: int)
    requires
        0 <= k <= n,
        first_fault(ds, k) is Some,
    ensures
        first_fault(ds, n) == first_fault(ds, k),
    decreases n - k,
{
    if k < n {
        lemma_fault_sticks(ds, k + 1, n);
    }
}

/// The first unresolved reference or circular expansion, assembler by
/// assembler and argument by argument, in declaration order.
pub fn validate(ds: &Vec<Declared>) -> (r: Result<(), TflaError>)
    ensures
        match first_fault(decls_view(ds@), ds@.len() as int) {
            Some(e) => r matches Err(x) && x@ == e,
            None => r is Ok,
        },
{
    let ghost dv = decls_view(ds@);
    let mut a: usize = 0;
    while a < ds.len()
        invariant
            a <= ds@.len(),
            dv == decls_view(ds@),
            first_fault(dv, a as int) is None,
        decreases ds@.len() - a,
    {
        match &ds[a].entity {
            Entity::Assembler(asmb) => {
                let ghost ts = tags(asmb@.args);
                let mut i: usize = 0;
                assert(ts.subrange(0, 0) =~= Seq::<Seq<char>>::empty());
                while i < asmb.arbitrary.len()
                    invariant
                        a < ds@.len(),
                        dv == decls_view(ds@),
                        dv[a as int].entity == EntityView::Assembler(asmb@),
                        first_fault(dv, a as int) is None,
                        ts == tags(asmb@.args),
                        ts.len() == asmb.arbitrary@.len(),
                        i <= ts.len(),
                        first_tag_fault(dv, a as int, ts.subrange(0, i as int)) is None,
                    decreases ts.len() - i,
                {
                    let t = tag_of(asmb.arbitrary[i].as_str());
                    assert(ts.subrange(0, i + 1).drop_last() =~= ts.subrange(0, i as int));
                    match check_tag(ds, a, t.as_str()) {
                        Some(e) => {
                            proof {
                                lemma_tag_fault_sticks(dv, a as int, ts, i + 1);
                                lemma_fault_sticks(dv, a + 1, dv.len() as int);
                            }
                            return Err(e);
                        },
                        None => {},
                    }
                    i = i + 1;
                }
                assert(ts.subrange(0, ts.len() as int) =~= ts);
            },
            _ => {},
        }
        a = a + 1;
    }
    Ok(())
}

impl TflaCC {
    /// The normalized document, once every reference resolves and no
    /// assembler expands to itself.
    pub fn analyse(&self) -> (r: Result<String, TflaError>)
        requires
            self.code_view().len() + 2 < usize::MAX,
        ensures
            match parsed(self.rules_view(), self.code_view()) {
                Ok((ds, _)) => match first_fault(ds, ds.len() as int) {
                    Some(e) => r matches Err(x) && x@ == e,
                    None => r matches Ok(s) && s@ == document(ds),
                },
                Err(e) => r matches Err(x) && x@ == e,
            },
    {
        let p = self.parse()?;
        validate(&p.decls)?;
        let lines = mount_all(&p.decls);
        Ok(join_with_newlines(&lines))
    }
}

/// Whether every line of `ts` that holds a token starts with a comment.
pub open spec fn comment_lines(ts: Seq<TokenView>) -> bool {
    forall|i: int|
        0 <= i < ts.len() && #[trigger] ts[i].ty != "NEW_LINE"@ && (i == 0 || ts[i - 1].ty == "NEW_LINE"@)
            ==> ts[i].ty == "comment"@
}

proof fn lemma_comment_lines_prefix(ts: Seq<TokenView>, k: int)
    requires
        comment_lines(ts),
        0 <= k <= ts.len(),
    ensures
        group(ts.subrange(0, k)) matches Ok(g) && g.open == Open::Idle && g.out.len() == 0
            && g.notes.len() == 0 && (g.pos == 0 <==> (k == 0 || ts[k - 1].ty == "NEW_LINE"@))
            && (g.pos > 0 ==> g.in_comment),
    decreases k,
{
    if k > 0 {
        lemma_comment_lines_prefix(ts, k - 1);
        assert(ts.subrange(0, k).drop_last() =~= ts.subrange(0, k - 1));
        assert(ts.subrange(0, k).last() == ts[k - 1]);
    }
}

/// A document whose every line is blank or a comment digests to nothing: no
/// declaration comes out, and the normalized document is empty.
pub proof fn lemma_comment_only_digest_empty(rules: Seq<(Seq<char>, Seq<char>)>, code: Seq<char>)
    requires
        tokens_of(rules, code) matches Ok(ts) && comment_lines(ts),
    ensures
        parsed(rules, code) matches Ok((ds, ns)) && ds.len() == 0 && document(ds).len() == 0,
{
    let ts = tokens_of(rules, code)->Ok_0;
    lemma_comment_lines_prefix(ts, ts.len() as int);
    assert(ts.subrange(0, ts.len() as int) =~= ts);
    let ds = parsed(rules, code)->Ok_0.0;
    assert(ds.map_values(|d: DeclaredView| mount_line(d)) =~= Seq::<Seq<char>>::empty());
}

proof fn lemma_split_concat(x: Seq<char>, y: Seq<char>)
    ensures
        split_spaces(x + seq![' '] + y) == split_spaces(x) + split_spaces(y),
    decreases y.len(),
{
    if y.len() == 0 {
        assert((x + seq![' '] + y).drop_last() =~= x);
        assert(split_spaces(x).push(Seq::empty()) =~= split_spaces(x) + split_spaces(y));
    } else {
        let z = x + seq![' '] + y;
        assert(z.drop_last() =~= x + seq![' '] + y.drop_last());
        assert(z.last() == y.last());
        lemma_split_concat(x, y.drop_last());
        lemma_split_nonempty(y.drop_last());
        let p = split_spaces(x) + split_spaces(y.drop_last());
        if y.last() == ' ' {
            assert(p.push(Seq::empty()) =~= split_spaces(x) + split_spaces(y));
        } else {
            let q = split_spaces(y.drop_last());
            assert(p.update(p.len() - 1, p.last().push(y.last())) =~= split_spaces(x) + q.update(
                q.len() - 1,
                q.last().push(y.last()),
            ));
        }
    }
}

proof fn lemma_split_no_space(w: Seq<char>)
    requires
        !w.contains(' '),
    ensures
        split_spaces(w) == seq![w],
    decreases w.len(),
{
    if w.len() > 0 {
        assert(!w.drop_last().contains(' ')) by {
            if w.drop_last().contains(' ') {
                let k = choose|k: int| 0 <= k < w.drop_last().len() && w.drop_last()[k] == ' ';
                assert(w[k] == ' ');
            }
        }
        lemma_split_no_space(w.drop_last());
        assert(w.last() != ' ') by {
            assert(w[w.len() - 1] == w.last());
        }
        assert(w.drop_last().push(w.last()) =~= w);
        assert(seq![w.drop_last()].update(0, w.drop_last().push(w.last())) =~= seq![w]);
    } else {
        assert(w =~= Seq::<char>::empty());
    }
}

proof fn lemma_digit_char(d: nat)
    requires
        d < 10,
    ensures
        '0' <= digit_char(d) <= '9',
        ((digit_char(d) as u32) - ('0' as u32)) as nat == d,
{
}

proof fn lemma_split_spaced_tail(w: Seq<char>, ts: Seq<Seq<char>>)
    requires
        !w.contains(' '),
        forall|i: int| 0 <= i < ts.len() ==> !(#[trigger] ts[i]).contains(' '),
    ensures
        split_spaces(w + spaced_tail(ts)) == seq![w] + ts,
    decreases ts.len(),
{
    if ts.len() == 0 {
        assert(w + spaced_tail(ts) =~= w);
        lemma_split_no_space(w);
        assert(seq![w] + ts =~= seq![w]);
    } else {
        let x = w + spaced_tail(ts.drop_last());
        assert(w + spaced_tail(ts) =~= x + seq![' '] + ts.last());
        lemma_split_spaced_tail(w, ts.drop_last());
        lemma_split_concat(x, ts.last());
        assert(!ts[ts.len() - 1].contains(' '));
        lemma_split_no_space(ts.last());
        assert(seq![w] + ts.drop_last() + seq![ts.last()] =~= seq![w] + ts);
    }
}

proof fn lemma_decimal_digits(n: nat)
    ensures
        is_digits(decimal(n)),
        digits_value(decimal(n)) == n,
        !decimal(n).contains(' '),
    decreases n,
{
    if n < 10 {
        lemma_digit_char(n);
        let s = decimal(n);
        assert(s.drop_last() =~= Seq::<char>::empty());
        assert(digits_value(s.drop_last()) == 0);
        assert(s.last() == digit_char(n));
        assert(digits_value(s) == 0 * 10 + ((digit_char(n) as u32) - ('0' as u32)) as nat);
    } else {
        lemma_decimal_digits(n / 10);
        lemma_digit_char(n % 10);
        vstd::arithmetic::div_mod::lemma_fundamental_div_mod(n as int, 10);
        let s = decimal(n);
        assert(s.drop_last() =~= decimal(n / 10));
        assert(s.last() == digit_char(n % 10));
        assert(digits_value(s) == digits_value(decimal(n / 10)) * 10 + (n % 10));
        assert(digits_value(s) == n) by (nonlinear_arith)
            requires
                digits_value(s) == (n / 10) * 10 + (n % 10),
                n == 10 * (n / 10) + n % 10,
        {
        }
        assert(forall|i: int| 0 <= i < s.len() - 1 ==> s[i] == decimal(n / 10)[i]);
        assert(!s.contains(' ')) by {
            if s.contains(' ') {
                let k = choose|k: int| 0 <= k < s.len() && s[k] == ' ';
                if k < s.len() - 1 {
                    assert(decimal(n / 10).contains(' '));
                }
            }
        }
    }
}

/// An assembler's numbered line, cut at single spaces as `Assembler::from`
/// cuts it, reads back as its line number, the `as` prefix, its name and its
/// tagged arguments, provided neither the name nor a tagged argument holds a
/// space.
pub proof fn lemma_numbered_assembler_reads_back(line: nat, a: AssemblerView)
    requires
        !a.name.contains(' '),
        forall|i: int| 0 <= i < tags(a.args).len() ==> !(#[trigger] tags(a.args)[i]).contains(' '),
    ensures
        ({
            let p = split_spaces(numbered_line(DeclaredView { line, entity: EntityView::Assembler(a) }));
            &&& p.len() >= 3
            &&& is_digits(p[0])
            &&& digits_value(p[0]) == line
            &&& p[1] == "as"@
            &&& p[2] == a.name
            &&& p.subrange(3, p.len() as int) == tags(a.args)
        }),
{
    reveal_strlit("as ");
    reveal_strlit("as");
    let ts = tags(a.args);
    lemma_decimal_digits(line);
    lemma_split_spaced_tail(a.name, ts);
    assert(!"as"@.contains(' ')) by {
        if "as"@.contains(' ') {
            let k = choose|k: int| 0 <= k < "as"@.len() && "as"@[k] == ' ';
        }
    }
    lemma_split_no_space("as"@);
    lemma_split_no_space(decimal(line));
    let rest = a.name + spaced_tail(ts);
    lemma_split_concat("as"@, rest);
    let body = "as"@ + seq![' '] + rest;
    lemma_split_concat(decimal(line), body);
    let d = DeclaredView { line, entity: EntityView::Assembler(a) };
    assert(numbered_line(d) =~= decimal(line) + seq![' '] + body);
    let p = split_spaces(numbered_line(d));
    assert(p =~= seq![decimal(line), "as"@, a.name] + ts);
    assert(p.subrange(3, p.len() as int) =~= ts);
}

/// The tag prefix of a reference to an entity of kind `k`.
pub open spec fn ref_prefix(k: Kind) -> Seq<char> {
    match k {
        Kind::Searcher => "se-"@,
        Kind::Assembler => "as-"@,
        Kind::Symbol => "sy-"@,
    }
}

proof fn lemma_tag_fault_unresolved(ds: Seq<DeclaredView>, a: int, t: Seq<char>, n: Seq<char>, k: Kind, x: Seq<char>, l: nat)
    requires
        tag_fault(ds, a, t) == Some(ErrorView::UnresolvedReference(n, k, x, l)),
    ensures
        n == decl_name(ds[a]),
        l == ds[a].line,
        t == ref_prefix(k) + x,
        !resolves(ds, k, x),
{
    reveal(tag_fault);
    let p = ref_prefix(k);
    assert(has_prefix(t, p));
    assert(t =~= p + t.subrange(p.len() as int, t.len() as int));
}

proof fn lemma_first_tag_fault_unresolved(ds: Seq<DeclaredView>, a: int, ts: Seq<Seq<char>>, n: Seq<char>, k: Kind, x: Seq<char>, l: nat)
    requires
        first_tag_fault(ds, a, ts) == Some(ErrorView::UnresolvedReference(n, k, x, l)),
    ensures
        n == decl_name(ds[a]),
        l == ds[a].line,
        ts.contains(ref_prefix(k) + x),
        !resolves(ds, k, x),
    decreases ts.len(),
{
    if first_tag_fault(ds, a, ts.drop_last()) is Some {
        lemma_first_tag_fault_unresolved(ds, a, ts.drop_last(), n, k, x, l);
        let i = choose|i: int| 0 <= i < ts.drop_last().len() && ts.drop_last()[i] == ref_prefix(k) + x;
        assert(ts[i] == ref_prefix(k) + x);
    } else {
        lemma_tag_fault_unresolved(ds, a, ts.last(), n, k, x, l);
        assert(ts[ts.len() - 1] == ref_prefix(k) + x);
    }
}

proof fn lemma_first_fault_unresolved(ds: Seq<DeclaredView>, j: int, n: Seq<char>, k: Kind, x: Seq<char>, l: nat)
    requires
        0 <= j <= ds.len(),
        first_fault(ds, j) == Some(ErrorView::UnresolvedReference(n, k, x, l)),
    ensures
        exists|a: int|
            0 <= a < j && ((#[trigger] ds[a]).entity matches EntityView::Assembler(v) && v.name == n && ds[a].line
                == l && tags(v.args).contains(ref_prefix(k) + x)),
        !resolves(ds, k, x),
    decreases j,
{
    if first_fault(ds, j - 1) is Some {
        lemma_first_fault_unresolved(ds, j - 1, n, k, x, l);
    } else {
        let a = j - 1;
        match ds[a].entity {
            EntityView::Assembler(v) => {
                lemma_first_tag_fault_unresolved(ds, a, tags(v.args), n, k, x, l);
                assert(ds[a].entity matches EntityView::Assembler(v) && v.name == n && ds[a].line == l
                    && tags(v.args).contains(ref_prefix(k) + x));
            },
            _ => {},
        }
    }
}

/// An unresolved reference is reported only for a declared assembler, at its
/// own line, that holds the tagged argument naming the target; and no entity
/// of the target's kind has that name.
pub proof fn lemma_unresolved_names_its_source(ds: Seq<DeclaredView>, n: Seq<char>, k: Kind, x: Seq<char>, l: nat)
    requires
        first_fault(ds, ds.len() as int) == Some(ErrorView::UnresolvedReference(n, k, x, l)),
    ensures
        exists|a: int|
            0 <= a < ds.len() && ((#[trigger] ds[a]).entity matches EntityView::Assembler(v) && v.name == n
                && ds[a].line == l && tags(v.args).contains(ref_prefix(k) + x)),
        forall|i: int| 0 <= i < ds.len() ==> !(decl_kind(#[trigger] ds[i]) == k && decl_name(ds[i]) == x),
{
    lemma_first_fault_unresolved(ds, ds.len() as int, n, k, x, l);
}

} // verus!
