//! Publish subjects, subscribe patterns, and the pattern-match predicate.
use vstd::prelude::*;

verus! {

/// Why a subject or a pattern was refused, or a message could not be delivered.
#[derive(Debug, Clone, Copy, PartialEq, Eq, Structural)]
pub enum NatsError {
    /// The publish subject holds `*`, `>`, NUL or a space.
    InvalidPublishSubject,
    /// The subscribe pattern holds NUL or a space, or a wildcard out of place.
    InvalidSubscribeSubject,
    /// A matching subscriber's mailbox did not accept the message.
    DeliveryFailed,
    /// The operation is not offered by this engine.
    Unsupported,
}

// ---------------------------------------------------------------------------
// The model: texts, tokens, validity and matching.
// ---------------------------------------------------------------------------

/// The tokens of `s` when it is cut at every `.`; empty tokens are kept, so the
/// result always holds at least one token.
pub open spec fn split_dot(s: Seq<char>) -> Seq<Seq<char>>
    decreases s.len(),
{
    if s.len() == 0 {
        seq![Seq::<char>::empty()]
    } else {
        let prev = split_dot(s.drop_last());
        if s.last() == '.' {
            prev.push(Seq::<char>::empty())
        } else {
            prev.update(prev.len() - 1, prev.last().push(s.last()))
        }
    }
}

/// The tokens written back with a `.` between each two of them.
pub open spec fn join_dot(t: Seq<Seq<char>>) -> Seq<char>
    decreases t.len(),
{
    if t.len() == 0 {
        Seq::<char>::empty()
    } else if t.len() == 1 {
        t[0]
    } else {
        join_dot(t.drop_last()) + seq!['.'] + t.last()
    }
}

/// The characters that a publish subject may not hold.
pub open spec fn forbidden_in_subject(c: char) -> bool {
    c == '*' || c == '>' || c == '\0' || c == ' '
}

/// The characters that a subscribe pattern may not hold anywhere.
pub open spec fn forbidden_in_pattern(c: char) -> bool {
    c == '\0' || c == ' '
}

/// A text that parses as a publish subject.
pub open spec fn valid_subject_text(s: Seq<char>) -> bool {
    forall|i: int| 0 <= i < s.len() ==> !forbidden_in_subject(#[trigger] s[i])
}

/// Tokens that are all literal: no character of them is forbidden in a subject.
pub open spec fn literal_tokens(t: Seq<Seq<char>>) -> bool {
    forall|i: int, j: int|
        0 <= i < t.len() && 0 <= j < t[i].len() ==> !forbidden_in_subject(#[trigger] t[i][j])
}

/// The single-level wildcard token.
pub open spec fn star() -> Seq<char> {
    seq!['*']
}

/// The multi-level wildcard token.
pub open spec fn tail() -> Seq<char> {
    seq!['>']
}

/// A token of a pattern is well placed: a token holding `*` is exactly `*`, and a
/// token holding `>` is exactly `>` and the last one.
pub open spec fn valid_pattern_token(t: Seq<char>, last: bool) -> bool {
    &&& t.contains('*') ==> t == star()
    &&& t.contains('>') ==> t == tail() && last
}

/// Every token of the pattern is well placed.
pub open spec fn valid_pattern_tokens(t: Seq<Seq<char>>) -> bool {
    forall|i: int| 0 <= i < t.len() ==> valid_pattern_token(#[trigger] t[i], i == t.len() - 1)
}

/// A text that parses as a subscribe pattern.
pub open spec fn valid_pattern_text(s: Seq<char>) -> bool {
    &&& forall|i: int| 0 <= i < s.len() ==> !forbidden_in_pattern(#[trigger] s[i])
    &&& valid_pattern_tokens(split_dot(s))
}

/// One pattern token accepts one subject token: `*` accepts any, else they are equal.
pub open spec fn token_fits(p: Seq<char>, s: Seq<char>) -> bool {
    p == star() || p == s
}

/// The first `n` tokens of the pattern accept the subject's tokens at the same places.
pub open spec fn prefix_fits(p: Seq<Seq<char>>, s: Seq<Seq<char>>, n: int) -> bool {
    forall|i: int| 0 <= i < n ==> #[trigger] token_fits(p[i], s[i])
}

/// The pattern matches the subject: either both have the same number of tokens and
/// each pattern token accepts its subject token, or some `>` of the pattern stands
/// where the subject still has a token and every pattern token before it accepts.
pub open spec fn pattern_matches(p: Seq<Seq<char>>, s: Seq<Seq<char>>) -> bool {
    ||| p.len() == s.len() && prefix_fits(p, s, p.len() as int)
    ||| exists|j: int| 0 <= j < p.len() && j < s.len() && p[j] == tail() && prefix_fits(p, s, j)
}

/// The views of a list of strings.
pub open spec fn views_of(v: Seq<String>) -> Seq<Seq<char>> {
    v.map_values(|t: String| t@)
}

// ---------------------------------------------------------------------------
// Lemmas on splitting and joining.
// ---------------------------------------------------------------------------

proof fn lemma_split_nonempty(s: Seq<char>)
    ensures
        split_dot(s).len() >= 1,
    decreases s.len(),
{
    if s.len() > 0 {
        lemma_split_nonempty(s.drop_last());
    }
}

/// Every character of a token of `split_dot(s)` is a character of `s` other than `.`.
proof fn lemma_split_chars(s: Seq<char>)
    ensures
        forall|i: int, j: int|
            0 <= i < split_dot(s).len() && 0 <= j < split_dot(s)[i].len() ==> (#[trigger] split_dot(
                s,
            )[i][j] != '.' && s.contains(split_dot(s)[i][j])),
    decreases s.len(),
{
    if s.len() > 0 {
        let d = s.drop_last();
        lemma_split_chars(d);
        lemma_split_nonempty(d);
        assert forall|i: int, j: int|
            0 <= i < split_dot(s).len() && 0 <= j < split_dot(s)[i].len() implies (
            #[trigger] split_dot(s)[i][j] != '.' && s.contains(split_dot(s)[i][j])) by {
            let prev = split_dot(d);
            if s.last() == '.' {
                assert(i < prev.len());
                assert(split_dot(s)[i] == prev[i]);
                let k = choose|k: int| 0 <= k < d.len() && d[k] == prev[i][j];
                assert(s[k] == d[k]);
            } else if i == prev.len() - 1 && j == prev.last().len() {
                assert(split_dot(s)[i][j] == s.last());
                assert(s[s.len() - 1] == s.last());
            } else {
                assert(split_dot(s)[i][j] == prev[i][j]);
                let k = choose|k: int| 0 <= k < d.len() && d[k] == prev[i][j];
                assert(s[k] == d[k]);
            }
        }
    }
}

/// Joining the tokens of a text gives the text back.
proof fn lemma_join_split(s: Seq<char>)
    ensures
        join_dot(split_dot(s)) == s,
    decreases s.len(),
{
    if s.len() > 0 {
        let d = s.drop_last();
        let prev = split_dot(d);
        lemma_join_split(d);
        lemma_split_nonempty(d);
        if s.last() == '.' {
            assert(split_dot(s).drop_last() =~= prev);
            assert(s =~= d + seq!['.'] + Seq::<char>::empty());
        } else {
            let t = split_dot(s);
            if prev.len() == 1 {
                assert(s =~= prev[0].push(s.last()));
            } else {
                assert(t.drop_last() =~= prev.drop_last());
                assert(join_dot(prev) == join_dot(prev.drop_last()) + seq!['.'] + prev.last());
                assert(s =~= d.push(s.last()));
                assert(s =~= join_dot(prev.drop_last()) + seq!['.'] + prev.last().push(s.last()));
            }
        }
    }
}

// ---------------------------------------------------------------------------
// Laws of the subject model.
// ---------------------------------------------------------------------------

/// A subject written back as text is the text it was parsed from.
pub proof fn lemma_subject_round_trip(s: Seq<char>)
    requires
        valid_subject_text(s),
    ensures
        join_dot(split_dot(s)) == s,
{
    lemma_join_split(s);
}

/// Every valid subject text is also a valid pattern, made of literal tokens, and
/// that pattern matches the subject.
pub proof fn lemma_literal_pattern_matches_itself(s: Seq<char>)
    requires
        valid_subject_text(s),
    ensures
        valid_pattern_text(s),
        literal_tokens(split_dot(s)),
        pattern_matches(split_dot(s), split_dot(s)),
{
    let t = split_dot(s);
    lemma_split_chars(s);
    assert forall|i: int, j: int| 0 <= i < t.len() && 0 <= j < t[i].len() implies
        !forbidden_in_subject(#[trigger] t[i][j]) by {
        let k = choose|k: int| 0 <= k < s.len() && s[k] == t[i][j];
        assert(!forbidden_in_subject(s[k]));
    }
    assert forall|i: int| 0 <= i < t.len() implies valid_pattern_token(
        #[trigger] t[i],
        i == t.len() - 1,
    ) by {
        if t[i].contains('*') {
            let j = choose|j: int| 0 <= j < t[i].len() && t[i][j] == '*';
            assert(!forbidden_in_subject(t[i][j]));
        }
        if t[i].contains('>') {
            let j = choose|j: int| 0 <= j < t[i].len() && t[i][j] == '>';
            assert(!forbidden_in_subject(t[i][j]));
        }
    }
    assert(prefix_fits(t, t, t.len() as int));
}

/// A `*` at one place of a pattern accepts any token there: a subject of the
/// pattern's length that agrees with it at every other place is matched.
pub proof fn lemma_star_accepts_any(p: Seq<Seq<char>>, s: Seq<Seq<char>>, i: int)
    requires
        0 <= i < p.len(),
        p[i] == star(),
        s.len() == p.len(),
        forall|k: int| 0 <= k < p.len() && k != i ==> #[trigger] s[k] == p[k],
    ensures
        pattern_matches(p, s),
{
    assert forall|k: int| 0 <= k < p.len() implies #[trigger] token_fits(p[k], s[k]) by {
        if k != i {
            assert(s[k] == p[k]);
        }
    }
}

/// A pattern that ends in `>` matches every subject that has a token at the place
/// of the `>` and is accepted by the tokens before it, whatever follows.
pub proof fn lemma_tail_accepts_rest(p: Seq<Seq<char>>, s: Seq<Seq<char>>)
    requires
        p.len() >= 1,
        p.last() == tail(),
        s.len() >= p.len(),
        prefix_fits(p, s, p.len() - 1),
    ensures
        pattern_matches(p, s),
{
    assert(p[p.len() - 1] == tail());
}

// ---------------------------------------------------------------------------
// Executable helpers on text.
// ---------------------------------------------------------------------------

/// Whether the text holds the character.
fn text_has(s: &str, c: char) -> (r: bool)
    ensures
        r == s@.contains(c),
{
    let n = s.unicode_len();
    let mut i: usize = 0;
    while i < n
        invariant
            n == s@.len(),
            i <= n,
            forall|k: int| 0 <= k < i ==> s@[k] != c,
        decreases n - i,
    {
        if s.get_char(i) == c {
            return true;
        }
        i = i + 1;
    }
    false
}

/// Whether the text is exactly the one character.
fn text_is(s: &str, c: char) -> (r: bool)
    ensures
        r == (s@ == seq![c]),
{
    let n = s.unicode_len();
    if n != 1 {
        return false;
    }
    let r = s.get_char(0) == c;
    if r {
        assert(s@ =~= seq![c]);
    }
    r
}

/// Cuts the text at every `.`, keeping empty tokens.
fn split_text(s: &str) -> (r: Vec<String>)
    ensures
        views_of(r@) == split_dot(s@),
{
    let n = s.unicode_len();
    let mut out: Vec<String> = Vec::new();
    let mut start: usize = 0;
    let mut i: usize = 0;
    assert(s@.subrange(0, 0) =~= Seq::<char>::empty());
    assert(views_of(out@) =~= Seq::<Seq<char>>::empty());
    while i < n
        invariant
            n == s@.len(),
            start <= i <= n,
            views_of(out@).push(s@.subrange(start as int, i as int)) == split_dot(
                s@.subrange(0, i as int),
            ),
        decreases n - i,
    {
        let c = s.get_char(i);
        let ghost before = out@;
        proof {
            let next = s@.subrange(0, i + 1);
            assert(next.drop_last() =~= s@.subrange(0, i as int));
            assert(next.last() == c);
        }
        if c == '.' {
            let t = s.substring_char(start, i);
            out.push(t.to_owned());
            assert(views_of(out@) =~= views_of(before).push(s@.subrange(start as int, i as int)));
            start = i + 1;
            assert(s@.subrange(start as int, start as int) =~= Seq::<char>::empty());
        } else {
            assert(s@.subrange(start as int, i + 1) =~= s@.subrange(start as int, i as int).push(
                c,
            ));
            let ghost prev = split_dot(s@.subrange(0, i as int));
            assert(views_of(out@).push(s@.subrange(start as int, i + 1)) =~= prev.update(
                prev.len() - 1,
                prev.last().push(c),
            ));
        }
        i = i + 1;
    }
    let t = s.substring_char(start, n);
    let ghost before = out@;
    out.push(t.to_owned());
    assert(views_of(out@) =~= views_of(before).push(s@.subrange(start as int, n as int)));
    assert(s@.subrange(0, n as int) =~= s@);
    out
}

/// Joins the strings with a `.` between each two of them.
fn join_text(v: &Vec<String>) -> (r: String)
    ensures
        r@ == join_dot(views_of(v@)),
{
    let mut out = String::new();
    let mut i: usize = 0;
    proof {
        reveal_strlit(".");
    }
    while i < v.len()
        invariant
            i <= v@.len(),
            out@ == join_dot(views_of(v@.subrange(0, i as int))),
        decreases v@.len() - i,
    {
        let ghost before = out@;
        if i > 0 {
            out.append(".");
        }
        out.append(v[i].as_str());
        proof {
            reveal_strlit(".");
            let t = views_of(v@.subrange(0, i + 1));
            assert(t.last() == v@[i as int]@);
            assert(t.drop_last() =~= views_of(v@.subrange(0, i as int)));
            if i == 0 {
                assert(out@ =~= t[0]);
            } else {
                assert(out@ =~= before + seq!['.'] + t.last());
            }
        }
        i = i + 1;
    }
    assert(v@.subrange(0, v@.len() as int) =~= v@);
    out
}

// ---------------------------------------------------------------------------
// Publish subjects.
// ---------------------------------------------------------------------------

/// A concrete subject that messages are published under: literal tokens only.
#[derive(Debug, Clone)]
pub struct PublishSubject(Vec<String>);

impl View for PublishSubject {
    type V = Seq<Seq<char>>;

    closed spec fn view(&self) -> Seq<Seq<char>> {
        views_of(self.0@)
    }
}

impl PublishSubject {
    /// Parses a subject: refused if it holds `*`, `>`, NUL or a space, else cut at
    /// every `.` with empty tokens kept.
    pub fn from_str(subject: &str) -> (r: Result<PublishSubject, NatsError>)
        ensures
            r is Ok <==> valid_subject_text(subject@),
            r matches Ok(p) ==> p@ == split_dot(subject@) && literal_tokens(p@),
            r matches Err(e) ==> e == NatsError::InvalidPublishSubject,
    {
        if text_has(subject, '*') || text_has(subject, '>') || text_has(subject, '\0')
            || text_has(subject, ' ') {
            return Err(NatsError::InvalidPublishSubject);
        }
        proof {
            lemma_literal_pattern_matches_itself(subject@);
        }
        Ok(PublishSubject(split_text(subject)))
    }

    /// The subject written back as text, its tokens joined by `.`.
    pub fn to_string(&self) -> (r: String)
        ensures
            r@ == join_dot(self@),
    {
        join_text(&self.0)
    }
}

impl std::str::FromStr for PublishSubject {
    type Err = NatsError;

    fn from_str(subject: &str) -> Result<PublishSubject, NatsError> {
        PublishSubject::from_str(subject)
    }
}

// ---------------------------------------------------------------------------
// Subscribe patterns.
// ---------------------------------------------------------------------------

/// A subject pattern that subscribers register: literal tokens, `*` for any one
/// token, and `>` as the last token for one or more further tokens.
#[derive(Debug, Clone)]
pub struct SubscribeSubject(Vec<String>);

impl View for SubscribeSubject {
    type V = Seq<Seq<char>>;

    closed spec fn view(&self) -> Seq<Seq<char>> {
        views_of(self.0@)
    }
}

impl From<PublishSubject> for SubscribeSubject {
    fn from(value: PublishSubject) -> (r: SubscribeSubject)
        ensures
            r@ == value@,
    {
        SubscribeSubject(value.0)
    }
}

impl vstd::std_specs::convert::FromSpecImpl<PublishSubject> for SubscribeSubject {
    open spec fn obeys_from_spec() -> bool {
        true
    }

    closed spec fn from_spec(v: PublishSubject) -> SubscribeSubject {
        SubscribeSubject(v.0)
    }
}

impl std::str::FromStr for SubscribeSubject {
    type Err = NatsError;

    fn from_str(subject: &str) -> Result<SubscribeSubject, NatsError> {
        SubscribeSubject::from_str(subject)
    }
}

impl SubscribeSubject {
    /// Parses a pattern: refused if it holds NUL or a space, or if, once cut at
    /// every `.`, a token holding `*` is not exactly `*`, or a token holding `>` is
    /// not exactly `>` or not the last one.
    pub fn from_str(subject: &str) -> (r: Result<SubscribeSubject, NatsError>)
        ensures
            r is Ok <==> valid_pattern_text(subject@),
            r matches Ok(p) ==> p@ == split_dot(subject@) && valid_pattern_tokens(p@),
            r matches Err(e) ==> e == NatsError::InvalidSubscribeSubject,
    {
        if text_has(subject, '\0') || text_has(subject, ' ') {
            return Err(NatsError::InvalidSubscribeSubject);
        }
        let parts = split_text(subject);
        let n = parts.len();
        let mut i: usize = 0;
        while i < n
            invariant
                n == parts@.len(),
                views_of(parts@) == split_dot(subject@),
                i <= n,
                forall|k: int|
                    0 <= k < i ==> valid_pattern_token(
                        #[trigger] views_of(parts@)[k],
                        k == n - 1,
                    ),
            decreases n - i,
        {
            let part = parts[i].as_str();
            assert(part@ == views_of(parts@)[i as int]);
            if text_has(part, '*') && !text_is(part, '*') {
                assert(!valid_pattern_token(views_of(parts@)[i as int], i == n - 1));
                return Err(NatsError::InvalidSubscribeSubject);
            }
            if text_has(part, '>') && (!text_is(part, '>') || i != n - 1) {
                assert(!valid_pattern_token(views_of(parts@)[i as int], i == n - 1));
                return Err(NatsError::InvalidSubscribeSubject);
            }
            i = i + 1;
        }
        Ok(SubscribeSubject(parts))
    }

    /// The pattern written back as text, its tokens joined by `.`.
    pub fn to_string(&self) -> (r: String)
        ensures
            r@ == join_dot(self@),
    {
        join_text(&self.0)
    }

    /// Whether this pattern matches the subject.
    pub fn check_subject(&self, subject: &PublishSubject) -> (r: bool)
        ensures
            r == pattern_matches(self@, subject@),
    {
        let p = &self.0;
        let s = &subject.0;
        let ghost pv = self@;
        let ghost sv = subject@;
        let n = p.len();
        let mut i: usize = 0;
        while i < n
            invariant
                n == pv.len(),
                pv == self@,
                sv == subject@,
                pv == views_of(p@),
                sv == views_of(s@),
                i <= n,
                i <= sv.len(),
                prefix_fits(pv, sv, i as int),
                forall|k: int| 0 <= k < i ==> pv[k] != tail(),
            decreases n - i,
        {
            let present = i < s.len();
            let token = p[i].as_str();
            assert(token@ == pv[i as int]);
            if text_is(token, '>') && present {
                assert(0 <= i < pv.len() && i < sv.len() && pv[i as int] == tail() && prefix_fits(
                    pv,
                    sv,
                    i as int,
                ));
                return true;
            }
            if text_is(token, '*') && present {
                assert(token_fits(pv[i as int], sv[i as int]));
                i = i + 1;
                continue;
            }
            let equal = present && p[i] == s[i];
            if present {
                assert(sv[i as int] == s@[i as int]@);
            }
            if !equal {
                proof {
                    if present {
                        assert(!token_fits(pv[i as int], sv[i as int]));
                    }
                    if exists|j: int|
                        0 <= j < pv.len() && j < sv.len() && pv[j] == tail() && prefix_fits(
                            pv,
                            sv,
                            j,
                        ) {
                        let j = choose|j: int|
                            0 <= j < pv.len() && j < sv.len() && pv[j] == tail() && prefix_fits(
                                pv,
                                sv,
                                j,
                            );
                        if j > i {
                            assert(token_fits(pv[i as int], sv[i as int]));
                        }
                    }
                    if pv.len() == sv.len() && prefix_fits(pv, sv, pv.len() as int) {
                        assert(token_fits(pv[i as int], sv[i as int]));
                    }
                }
                return false;
            }
            assert(token_fits(pv[i as int], sv[i as int]));
            i = i + 1;
        }
        proof {
            if exists|j: int|
                0 <= j < pv.len() && j < sv.len() && pv[j] == tail() && prefix_fits(pv, sv, j) {
                let j = choose|j: int|
                    0 <= j < pv.len() && j < sv.len() && pv[j] == tail() && prefix_fits(pv, sv, j);
                assert(pv[j] != tail());
            }
        }
        n == s.len()
    }
}

} // verus!
