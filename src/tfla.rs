//! An ordered-rule tokenizer: at each step the first rule whose pattern
//! matches at the cursor produces a token, with line and column tracking and
//! comment suppression.

use vstd::prelude::*;
use vstd::string::*;
use crate::text::str_eq;

verus! {

#[verifier::external_type_specification]
#[verifier::external_body]
pub struct ExRegex(regex::Regex);

#[verifier::external_type_specification]
#[verifier::external_body]
pub struct ExRegexError(regex::Error);

/// Whether `pattern` is accepted by the regular-expression compiler.
pub uninterp spec fn pattern_compiles(pattern: Seq<char>) -> bool;

/// For the leftmost-first match of `pattern` in `text`, if there is one: the
/// text before the match, and the text up to the end of the match.
pub uninterp spec fn match_bounds(pattern: Seq<char>, text: Seq<char>) -> Option<(Seq<char>, Seq<char>)>;

/// The match of `pattern` that starts at the beginning of `text`, if any.
pub open spec fn anchored_match(pattern: Seq<char>, text: Seq<char>) -> Option<Seq<char>> {
    match match_bounds(pattern, text) {
        Some((before, upto)) => if before.len() == 0 {
            Some(upto)
        } else {
            None
        },
        None => None,
    }
}

/// Relies on `regex::Regex::new`: it succeeds exactly on the patterns it can compile.
#[verifier::external_body]
fn compile(pattern: &str) -> (r: Result<regex::Regex, regex::Error>)
    ensures
        r is Ok <==> pattern_compiles(pattern@),
{
    regex::Regex::new(pattern)
}

/// A kind tag with the pattern that recognises it.
pub struct Rule {
    kind: String,
    pattern: String,
    re: regex::Regex,
}

impl View for Rule {
    type V = (Seq<char>, Seq<char>);

    closed spec fn view(&self) -> (Seq<char>, Seq<char>) {
        (self.kind@, self.pattern@)
    }
}

/// Relies on `regex::Regex::find`: the leftmost-first match of the rule's
/// compiled pattern in `text`, returned as the text before the match and the
/// text up to the match's end, both prefixes of `text`. `Rule::new` is the
/// only way to build a `Rule`, so `rule.re` is always `rule.pattern` compiled.
#[verifier::external_body]
fn find_bounds(rule: &Rule, text: &str) -> (r: Option<(String, String)>)
    ensures
        match r {
            Some((b, e)) => match_bounds(rule@.1, text@) == Some((b@, e@)),
            None => match_bounds(rule@.1, text@) is None,
        },
        r matches Some((b, e)) ==> b@.len() <= e@.len() <= text@.len() && e@ == text@.subrange(
            0,
            e@.len() as int,
        ) && b@ == text@.subrange(0, b@.len() as int),
{
    match rule.re.find(text) {
        Some(m) => Some((text[..m.start()].to_string(), text[..m.end()].to_string())),
        None => None,
    }
}

impl Rule {
    /// The match of the rule's pattern that starts at the beginning of `text`,
    /// if any.
    pub fn leading_match(&self, text: &str) -> (r: Option<String>)
        ensures
            match r {
                Some(m) => anchored_match(self@.1, text@) == Some(m@),
                None => anchored_match(self@.1, text@) is None,
            },
            r matches Some(m) ==> m@.len() <= text@.len() && m@ == text@.subrange(0, m@.len() as int),
    {
        match find_bounds(self, text) {
            Some((before, upto)) => {
                if before.as_str().unicode_len() == 0 {
                    Some(upto)
                } else {
                    None
                }
            },
            None => None,
        }
    }

    /// Compiles `pattern`; fails exactly when it is not a valid pattern.
    pub fn new(kind: &str, pattern: &str) -> (r: Option<Rule>)
        ensures
            r is Some <==> pattern_compiles(pattern@),
            r matches Some(rule) ==> rule@ == (kind@, pattern@),
    {
        match compile(pattern) {
            Ok(re) => Some(Rule { kind: kind.to_owned(), pattern: pattern.to_owned(), re }),
            Err(_) => None,
        }
    }

    pub fn kind(&self) -> (r: String)
        ensures
            r@ == self@.0,
    {
        self.kind.clone()
    }

    pub fn pattern(&self) -> (r: String)
        ensures
            r@ == self@.1,
    {
        self.pattern.clone()
    }
}


/// The kind tag that ends a line.
pub open spec fn new_line_kind() -> Seq<char> {
    "NEW_LINE"@
}

/// The kind tag that starts a comment running to the end of the line.
pub open spec fn line_comment_kind() -> Seq<char> {
    "LINE_COMMENT"@
}

/// The kind tag that opens a block comment when none is open, and closes it otherwise.
pub open spec fn block_toggle_kind() -> Seq<char> {
    "BLOCK_COMMENT"@
}

pub open spec fn block_open_kind() -> Seq<char> {
    "BLOCK_COMMENT_OPEN"@
}

pub open spec fn block_close_kind() -> Seq<char> {
    "BLOCK_COMMENT_CLOSE"@
}

/// The kind tag of whitespace, which is left out when whitespace is elided.
pub open spec fn space_kind() -> Seq<char> {
    "SPACE"@
}

/// A token: its kind tag, the text it covers, its line, and the columns
/// where it starts and ends.
#[derive(Debug, Clone)]
pub struct Token {
    pub ty: String,
    pub content: String,
    pub line: usize,
    pub start: usize,
    pub end: usize,
}

pub struct TokenView {
    pub ty: Seq<char>,
    pub content: Seq<char>,
    pub line: nat,
    pub start: nat,
    pub end: nat,
}

impl View for Token {
    type V = TokenView;

    open spec fn view(&self) -> TokenView {
        TokenView {
            ty: self.ty@,
            content: self.content@,
            line: self.line as nat,
            start: self.start as nat,
            end: self.end as nat,
        }
    }
}

impl Token {
    pub fn new(ty: &str, content: &str, line: usize, start: usize, end: usize) -> (r: Token)
        ensures
            r@ == (TokenView { ty: ty@, content: content@, line: line as nat, start: start as nat, end: end as nat }),
    {
        Token { ty: ty.to_owned(), content: content.to_owned(), line, start, end }
    }
}

/// Where the scanner stands: line, column, and which comments are open.
pub struct ScanState {
    pub line: nat,
    pub col: nat,
    pub in_line: bool,
    pub in_block: bool,
}

/// What scanning a text yields: the emitted tokens, the state after the last
/// match, and the unscanned rest when no rule could make progress.
pub struct ScanOutcome {
    pub tokens: Seq<TokenView>,
    pub state: ScanState,
    pub stall: Option<Seq<char>>,
}

/// The first rule at index `i` or later whose pattern matches at the start of
/// `text`, with the matched prefix.
pub open spec fn first_rule(rules: Seq<(Seq<char>, Seq<char>)>, text: Seq<char>, i: int) -> Option<(int, Seq<char>)>
    decreases rules.len() - i,
{
    if i < 0 || i >= rules.len() {
        None
    } else {
        match anchored_match(rules[i].1, text) {
            Some(m) => Some((i, m)),
            None => first_rule(rules, text, i + 1),
        }
    }
}

/// The state after a match of `len` characters by a rule of kind `kind`.
pub open spec fn advance(st: ScanState, kind: Seq<char>, len: nat) -> ScanState {
    if kind == new_line_kind() {
        ScanState { line: st.line + 1, col: 1, in_line: false, in_block: st.in_block }
    } else {
        ScanState {
            line: st.line,
            col: st.col + len,
            in_line: st.in_line || kind == line_comment_kind(),
            in_block: if kind == block_toggle_kind() {
                !st.in_block
            } else if kind == block_open_kind() {
                true
            } else if kind == block_close_kind() {
                false
            } else {
                st.in_block
            },
        }
    }
}

/// Whether a match of kind `kind`, leading to state `after`, is emitted.
pub open spec fn emitted(kind: Seq<char>, after: ScanState, ignore_spaces: bool) -> bool {
    kind == new_line_kind() || (!after.in_line && !after.in_block && !(ignore_spaces && kind == space_kind()))
}

/// Scanning `text` from state `st` with the ordered `rules`.
pub open spec fn scan(rules: Seq<(Seq<char>, Seq<char>)>, ignore_spaces: bool, st: ScanState, text: Seq<char>) -> ScanOutcome
    decreases text.len(),
{
    if text.len() == 0 {
        ScanOutcome { tokens: Seq::empty(), state: st, stall: None }
    } else {
        match first_rule(rules, text, 0) {
            Some((i, m)) => {
                if 0 < m.len() <= text.len() {
                    let tok = TokenView { ty: rules[i].0, content: m, line: st.line, start: st.col, end: st.col + m.len() };
                    let next = advance(st, rules[i].0, m.len());
                    let rest = scan(rules, ignore_spaces, next, text.subrange(m.len() as int, text.len() as int));
                    ScanOutcome {
                        tokens: if emitted(rules[i].0, next, ignore_spaces) { seq![tok] + rest.tokens } else { rest.tokens },
                        state: rest.state,
                        stall: rest.stall,
                    }
                } else {
                    ScanOutcome { tokens: Seq::empty(), state: st, stall: Some(text) }
                }
            },
            None => ScanOutcome { tokens: Seq::empty(), state: st, stall: Some(text) },
        }
    }
}

/// The pattern of a rule that does not compile.
#[derive(Debug, Clone)]
pub struct BadPattern {
    pub kind: String,
    pub pattern: String,
}

/// The part of the source that no rule could consume.
#[derive(Debug, Clone)]
pub struct ScanStall {
    pub rest: String,
}

/// The tokenizer: ordered rules, whitespace elision, and the scan state that
/// carries over between calls of `tokenize`.
pub struct TFLA {
    searchers: Vec<Rule>,
    assemblers: Vec<(String, Vec<String>)>,
    ignore_spaces: bool,
    in_line_comment: bool,
    in_block_comment: bool,
    line: usize,
    row: usize,
    tokens: Vec<Token>,
}

/// The views of `pairs`.
pub open spec fn pairs_view(pairs: Seq<(String, String)>) -> Seq<(Seq<char>, Seq<char>)> {
    pairs.map_values(|p: (String, String)| (p.0@, p.1@))
}

/// The index of the first pattern in `rules` that does not compile.
pub open spec fn first_bad(rules: Seq<(Seq<char>, Seq<char>)>) -> Option<int> {
    if exists|i: int| 0 <= i < rules.len() && !pattern_compiles(#[trigger] rules[i].1) {
        Some(choose|i: int| 0 <= i < rules.len() && !pattern_compiles(#[trigger] rules[i].1)
            && forall|k: int| 0 <= k < i ==> pattern_compiles(#[trigger] rules[k].1))
    } else {
        None
    }
}

impl TFLA {
    pub closed spec fn rules(&self) -> Seq<(Seq<char>, Seq<char>)> {
        self.searchers@.map_values(|r: Rule| r@)
    }

    /// The assembler entries handed to `new`, kept as they were.
    pub closed spec fn assembler_entries(&self) -> Seq<(String, Vec<String>)> {
        self.assemblers@
    }

    pub closed spec fn elides_spaces(&self) -> bool {
        self.ignore_spaces
    }

    /// The tokens emitted so far.
    pub closed spec fn emitted(&self) -> Seq<TokenView> {
        self.tokens@.map_values(|t: Token| t@)
    }

    pub closed spec fn state(&self) -> ScanState {
        ScanState {
            line: self.line as nat,
            col: self.row as nat,
            in_line: self.in_line_comment,
            in_block: self.in_block_comment,
        }
    }

    /// Compiles the rules in order; fails on the first pattern that does not
    /// compile. The scan starts on line 1, column 1, outside any comment.
    pub fn new(searchers: Vec<(String, String)>, assemblers: Vec<(String, Vec<String>)>, ignore_spaces: bool) -> (r: Result<TFLA, BadPattern>)
        ensures
            match r {
                Ok(t) => {
                    &&& first_bad(pairs_view(searchers@)) is None
                    &&& t.rules() == pairs_view(searchers@)
                    &&& t.state() == (ScanState { line: 1, col: 1, in_line: false, in_block: false })
                    &&& t.assembler_entries() == assemblers@
                    &&& t.elides_spaces() == ignore_spaces
                    &&& t.emitted().len() == 0
                },
                Err(e) => first_bad(pairs_view(searchers@)) matches Some(i)
                    && (e.kind@, e.pattern@) == pairs_view(searchers@)[i],
            },
    {
        let ghost pv = pairs_view(searchers@);
        let mut rules: Vec<Rule> = Vec::new();
        let mut i: usize = 0;
        while i < searchers.len()
            invariant
                i <= searchers.len(),
                pv == pairs_view(searchers@),
                rules@.len() == i,
                forall|k: int| 0 <= k < i ==> #[trigger] rules@[k]@ == pv[k],
                forall|k: int| 0 <= k < i ==> pattern_compiles(#[trigger] pv[k].1),
            decreases searchers.len() - i,
        {
            let kind = searchers[i].0.as_str();
            let pattern = searchers[i].1.as_str();
            match Rule::new(kind, pattern) {
                Some(rule) => rules.push(rule),
                None => {
                    assert(!pattern_compiles(pv[i as int].1));
                    let ghost j = first_bad(pv)->0;
                    assert(first_bad(pv) is Some);
                    assert(j == i) by {
                        if j < i {
                            assert(pattern_compiles(pv[j].1));
                        }
                        if j > i {
                            assert(pattern_compiles(pv[i as int].1));
                        }
                    }
                    return Err(BadPattern { kind: kind.to_owned(), pattern: pattern.to_owned() });
                },
            }
            i = i + 1;
        }
        assert(rules@.map_values(|r: Rule| r@) =~= pv);
        Ok(TFLA {
            searchers: rules,
            assemblers,
            ignore_spaces,
            in_line_comment: false,
            in_block_comment: false,
            line: 1,
            row: 1,
            tokens: Vec::new(),
        })
    }

    /// The first rule, in order, whose pattern matches `text`, with the text
    /// up to the end of its match.
    fn find_rule(&self, text: &str) -> (r: Option<(usize, String)>)
        ensures
            match first_rule(self.rules(), text@, 0) {
                Some((i, m)) => r matches Some((j, s)) && j == i && s@ == m && j < self.searchers@.len(),
                None => r is None,
            },
            r matches Some((j, s)) ==> s@.len() <= text@.len() && s@ == text@.subrange(0, s@.len() as int),
    {
        let ghost rules = self.rules();
        let mut j: usize = 0;
        while j < self.searchers.len()
            invariant
                j <= self.searchers@.len(),
                rules == self.rules(),
                rules.len() == self.searchers@.len(),
                first_rule(rules, text@, 0) == first_rule(rules, text@, j as int),
            decreases self.searchers@.len() - j,
        {
            assert(rules[j as int] == self.searchers@[j as int]@);
            match self.searchers[j].leading_match(text) {
                Some(m) => {
                    return Some((j, m));
                },
                None => {},
            }
            j = j + 1;
        }
        None
    }

    /// Scans `source` from the current state, appending the emitted tokens.
    /// Fails, keeping what was emitted before, where no rule consumes anything
    /// of the rest.
    pub fn tokenize(&mut self, source: &str) -> (r: Result<(), ScanStall>)
        requires
            old(self).state().line + source@.len() < usize::MAX,
            old(self).state().col + source@.len() + 1 < usize::MAX,
        ensures
            ({
                let o = scan(old(self).rules(), old(self).elides_spaces(), old(self).state(), source@);
                &&& final(self).emitted() == old(self).emitted() + o.tokens
                &&& final(self).state() == o.state
                &&& final(self).rules() == old(self).rules()
                &&& final(self).elides_spaces() == old(self).elides_spaces()
                &&& match r {
                    Ok(()) => o.stall is None,
                    Err(e) => o.stall == Some(e.rest@),
                }
            }),
    {
        let ghost rules = self.rules();
        let ghost ig = self.ignore_spaces;
        let ghost total = scan(rules, ig, self.state(), source@);
        let ghost base = self.emitted();
        let ghost line0 = self.line;
        let ghost col0 = self.row;
        let n = source.unicode_len();
        let mut pos: usize = 0;
        assert(source@.subrange(0, n as int) =~= source@);
        while pos < n
            invariant
                n == source@.len(),
                pos <= n,
                rules == self.rules(),
                rules == old(self).rules(),
                ig == self.ignore_spaces,
                ig == old(self).elides_spaces(),
                total == scan(old(self).rules(), old(self).elides_spaces(), old(self).state(), source@),
                base == old(self).emitted(),
                self.line <= line0 + pos,
                self.row <= col0 + 1 + pos,
                line0 + n < usize::MAX,
                col0 + n + 1 < usize::MAX,
                ({
                    let o = scan(rules, ig, self.state(), source@.subrange(pos as int, n as int));
                    &&& base + total.tokens == self.emitted() + o.tokens
                    &&& total.state == o.state
                    &&& total.stall == o.stall
                }),
            decreases n - pos,
        {
            let rest = source.substring_char(pos, n);
            let ghost st = self.state();
            let ghost before = self.emitted();
            match self.find_rule(rest) {
                None => {
                    proof {
                        let o = scan(rules, ig, st, rest@);
                        assert(o.tokens =~= Seq::<TokenView>::empty());
                        assert(before + o.tokens =~= before);
                    }
                    return Err(ScanStall { rest: rest.to_owned() });
                },
                Some((i, m)) => {
                    let len = m.as_str().unicode_len();
                    if len == 0 {
                        proof {
                            let o = scan(rules, ig, st, rest@);
                            assert(o.tokens =~= Seq::<TokenView>::empty());
                            assert(before + o.tokens =~= before);
                        }
                        return Err(ScanStall { rest: rest.to_owned() });
                    }
                    assert(rules[i as int] == self.searchers@[i as int]@);
                    let kind = self.searchers[i].kind();
                    let is_new_line = str_eq(kind.as_str(), "NEW_LINE");
                    let tok = Token { ty: kind.clone(), content: m, line: self.line, start: self.row, end: self.row + len };
                    if is_new_line {
                        self.line = self.line + 1;
                        self.row = 1;
                        self.in_line_comment = false;
                    } else {
                        self.row = self.row + len;
                        if str_eq(kind.as_str(), "LINE_COMMENT") {
                            self.in_line_comment = true;
                        }
                        if str_eq(kind.as_str(), "BLOCK_COMMENT") {
                            self.in_block_comment = !self.in_block_comment;
                        } else if str_eq(kind.as_str(), "BLOCK_COMMENT_OPEN") {
                            self.in_block_comment = true;
                        } else if str_eq(kind.as_str(), "BLOCK_COMMENT_CLOSE") {
                            self.in_block_comment = false;
                        }
                    }
                    assert(self.state() == advance(st, rules[i as int].0, len as nat));
                    let emit = is_new_line || (!self.in_line_comment && !self.in_block_comment && !(
                    self.ignore_spaces && str_eq(kind.as_str(), "SPACE")));
                    assert(emit == emitted(rules[i as int].0, self.state(), ig));
                    if emit {
                        self.tokens.push(tok);
                    }
                    assert(rest@.subrange(len as int, rest@.len() as int) =~= source@.subrange(pos + len, n as int));
                    assert(self.tokens@.map_values(|t: Token| t@) =~= if emit {
                        before.push(tok@)
                    } else {
                        before
                    });
                    pos = pos + len;
                },
            }
        }
        Ok(())
    }

    /// The rules, in priority order.
    pub fn searchers(&self) -> (r: &Vec<Rule>)
        ensures
            r@.map_values(|x: Rule| x@) == self.rules(),
    {
        &self.searchers
    }

    /// The assembler entries handed to `new`.
    pub fn assemblers(&self) -> (r: &Vec<(String, Vec<String>)>)
        ensures
            r@ == self.assembler_entries(),
    {
        &self.assemblers
    }

    /// Whether whitespace tokens are left out.
    pub fn ignore_spaces(&self) -> (r: bool)
        ensures
            r == self.elides_spaces(),
    {
        self.ignore_spaces
    }

    /// The tokens emitted so far.
    pub fn tokens(&self) -> (r: &Vec<Token>)
        ensures
            r@.map_values(|t: Token| t@) == self.emitted(),
    {
        &self.tokens
    }

    /// The tokens emitted so far.
    pub fn into_tokens(self) -> (r: Vec<Token>)
        ensures
            r@.map_values(|t: Token| t@) == self.emitted(),
    {
        self.tokens
    }
}

/// `first_rule` from index `s` picks the least index at or after `s` whose
/// pattern matches, with its match.
pub proof fn lemma_first_rule_least(rules: Seq<(Seq<char>, Seq<char>)>, text: Seq<char>, s: int)
    requires
        0 <= s,
    ensures
        match first_rule(rules, text, s) {
            Some((k, m)) => s <= k < rules.len() && anchored_match(rules[k].1, text) == Some(m)
                && forall|l: int| s <= l < k ==> anchored_match(#[trigger] rules[l].1, text) is None,
            None => forall|l: int| s <= l < rules.len() ==> anchored_match(#[trigger] rules[l].1, text) is None,
        },
    decreases rules.len() - s,
{
    if s < rules.len() {
        lemma_first_rule_least(rules, text, s + 1);
    }
}

/// Rule order is a priority: where rules `i` and `j`, with `i` before `j`,
/// both match at the start of the text, the token comes from rule `i` or from
/// a rule before it, never from rule `j`.
pub proof fn lemma_earlier_rule_wins(rules: Seq<(Seq<char>, Seq<char>)>, text: Seq<char>, i: int, j: int)
    requires
        0 <= i < j < rules.len(),
        anchored_match(rules[i].1, text) is Some,
        anchored_match(rules[j].1, text) is Some,
    ensures
        first_rule(rules, text, 0) matches Some((k, m)) && k <= i && k != j
            && anchored_match(rules[k].1, text) == Some(m),
{
    lemma_first_rule_least(rules, text, 0);
}

/// Inside a line comment nothing is emitted before the newline that ends it:
/// the first token that comes out, if any, is that newline, on the comment's line.
pub proof fn lemma_line_comment_silent(rules: Seq<(Seq<char>, Seq<char>)>, ignore_spaces: bool, st: ScanState, text: Seq<char>)
    requires
        st.in_line,
    ensures
        ({
            let o = scan(rules, ignore_spaces, st, text);
            o.tokens.len() > 0 ==> o.tokens[0].ty == new_line_kind() && o.tokens[0].line == st.line
        }),
    decreases text.len(),
{
    if text.len() > 0 {
        match first_rule(rules, text, 0) {
            Some((i, m)) => {
                if 0 < m.len() <= text.len() {
                    let next = advance(st, rules[i].0, m.len());
                    if rules[i].0 != new_line_kind() {
                        lemma_line_comment_silent(rules, ignore_spaces, next, text.subrange(m.len() as int, text.len() as int));
                    }
                }
            },
            None => {},
        }
    }
}

/// A line-comment match silences the rest of its line: after it, the first
/// token that comes out, if any, is the newline that ends the line.
pub proof fn lemma_line_comment_suppresses(rules: Seq<(Seq<char>, Seq<char>)>, ignore_spaces: bool, st: ScanState, text: Seq<char>)
    requires
        first_rule(rules, text, 0) matches Some((i, m)) && rules[i].0 == line_comment_kind() && 0 < m.len() <= text.len(),
    ensures
        ({
            let o = scan(rules, ignore_spaces, st, text);
            o.tokens.len() > 0 ==> o.tokens[0].ty == new_line_kind() && o.tokens[0].line == st.line
        }),
{
    reveal_strlit("LINE_COMMENT");
    reveal_strlit("NEW_LINE");
    let (i, m) = first_rule(rules, text, 0)->0;
    assert(line_comment_kind() != new_line_kind()) by {
        assert(line_comment_kind().len() != new_line_kind().len());
    }
    let next = advance(st, rules[i].0, m.len());
    assert(next.in_line);
    lemma_line_comment_silent(rules, ignore_spaces, next, text.subrange(m.len() as int, text.len() as int));
}

/// How many of `ts` are newline tokens.
pub open spec fn count_new_lines(ts: Seq<TokenView>) -> nat
    decreases ts.len(),
{
    if ts.len() == 0 {
        0
    } else {
        count_new_lines(ts.drop_last()) + if ts.last().ty == new_line_kind() {
            1nat
        } else {
            0nat
        }
    }
}

proof fn lemma_count_new_lines_front(t: TokenView, ts: Seq<TokenView>)
    ensures
        count_new_lines(seq![t] + ts) == (if t.ty == new_line_kind() { 1nat } else { 0nat }) + count_new_lines(ts),
    decreases ts.len(),
{
    let s = seq![t] + ts;
    if ts.len() == 0 {
        assert(s.drop_last() =~= Seq::<TokenView>::empty());
        assert(s.last() == t);
        assert(count_new_lines(s.drop_last()) == 0);
        assert(count_new_lines(ts) == 0);
    } else {
        assert(s.drop_last() =~= seq![t] + ts.drop_last());
        assert(s.last() == ts.last());
        lemma_count_new_lines_front(t, ts.drop_last());
    }
}

/// Newline tokens are never suppressed, so every token's line is the starting
/// line plus the newline tokens before it; and every token ends where its
/// start column plus its length puts it.
pub proof fn lemma_token_positions(rules: Seq<(Seq<char>, Seq<char>)>, ignore_spaces: bool, st: ScanState, text: Seq<char>)
    ensures
        ({
            let o = scan(rules, ignore_spaces, st, text);
            forall|i: int|
                0 <= i < o.tokens.len() ==> (#[trigger] o.tokens[i]).line == st.line + count_new_lines(
                    o.tokens.subrange(0, i),
                ) && o.tokens[i].end == o.tokens[i].start + o.tokens[i].content.len()
        }),
    decreases text.len(),
{
    if text.len() > 0 {
        match first_rule(rules, text, 0) {
            Some((k, m)) => {
                if 0 < m.len() <= text.len() {
                    let next = advance(st, rules[k].0, m.len());
                    let rest_text = text.subrange(m.len() as int, text.len() as int);
                    lemma_token_positions(rules, ignore_spaces, next, rest_text);
                    let rest = scan(rules, ignore_spaces, next, rest_text);
                    let tok = TokenView { ty: rules[k].0, content: m, line: st.line, start: st.col, end: st.col + m.len() };
                    let o = scan(rules, ignore_spaces, st, text);
                    if emitted(rules[k].0, next, ignore_spaces) {
                        assert(o.tokens == seq![tok] + rest.tokens);
                        assert forall|i: int| 0 <= i < o.tokens.len() implies (#[trigger] o.tokens[i]).line == st.line
                            + count_new_lines(o.tokens.subrange(0, i)) && o.tokens[i].end == o.tokens[i].start
                            + o.tokens[i].content.len() by {
                            if i == 0 {
                                assert(o.tokens.subrange(0, 0) =~= Seq::<TokenView>::empty());
                            } else {
                                assert(o.tokens[i] == rest.tokens[i - 1]);
                                assert(o.tokens.subrange(0, i) =~= seq![tok] + rest.tokens.subrange(0, i - 1));
                                lemma_count_new_lines_front(tok, rest.tokens.subrange(0, i - 1));
                            }
                        }
                    } else {
                        assert(rules[k].0 != new_line_kind());
                        assert(next.line == st.line);
                    }
                }
            },
            None => {},
        }
    }
}

} // verus!
