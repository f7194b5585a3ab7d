//! Client authorization: the capability patterns of a connection token and glob matching of
//! channel names against them (`*` is one segment, `**` any number of segments; separator `:`).
//!
//! Tokens are issued by the application backend; the engine only checks what they grant.

use vstd::prelude::*;
use crate::text::{split_on, split_segments, views, colon, lemma_split_injective};

verus! {

/// One grant of a connection token: a channel pattern and the actions it allows
/// (`"sub"`, `"pub"`, `"presence"`, `"history"`).
#[derive(Debug)]
pub struct ChannelGrant {
    pub pattern: String,
    pub allow: Vec<String>,
}

/// The claims of a connection token.
#[derive(Debug)]
pub struct Claims {
    pub sub: String,
    pub exp: Option<u64>,
    pub channels: Vec<ChannelGrant>,
}

/// What a grant says: its pattern and its allowed actions.
pub struct GrantModel {
    pub pattern: Seq<char>,
    pub allow: Seq<Seq<char>>,
}

/// What the claims say.
pub struct ClaimsModel {
    pub sub: Seq<char>,
    pub exp: Option<u64>,
    pub channels: Seq<GrantModel>,
}

impl View for ChannelGrant {
    type V = GrantModel;

    open spec fn view(&self) -> GrantModel {
        GrantModel { pattern: self.pattern@, allow: views(self.allow@) }
    }
}

impl View for Claims {
    type V = ClaimsModel;

    open spec fn view(&self) -> ClaimsModel {
        ClaimsModel {
            sub: self.sub@,
            exp: self.exp,
            channels: self.channels@.map_values(|g: ChannelGrant| g@),
        }
    }
}

impl Clone for ChannelGrant {
    fn clone(&self) -> (r: Self)
        ensures
            r@ == self@,
    {
        let allow = self.allow.clone();
        assert(views(allow@) =~= views(self.allow@));
        ChannelGrant { pattern: self.pattern.clone(), allow }
    }
}

impl Clone for Claims {
    fn clone(&self) -> (r: Self)
        ensures
            r@ == self@,
    {
        let channels = self.channels.clone();
        assert(channels@.map_values(|g: ChannelGrant| g@) =~= self.channels@.map_values(
            |g: ChannelGrant| g@,
        ));
        Claims { sub: self.sub.clone(), exp: self.exp, channels }
    }
}

/// The segment `**`.
pub open spec fn is_globstar(s: Seq<char>) -> bool {
    s == seq!['*', '*']
}

/// The segment `*`.
pub open spec fn is_star(s: Seq<char>) -> bool {
    s == seq!['*']
}

/// Whether pattern segments `p` match channel segments `c`.
pub open spec fn seg_match(p: Seq<Seq<char>>, c: Seq<Seq<char>>) -> bool
    decreases p.len(), 0int,
{
    if p.len() == 0 {
        c.len() == 0
    } else if is_globstar(p[0]) {
        p.len() == 1 || globstar_from(p.drop_first(), c, 0)
    } else if c.len() == 0 {
        false
    } else if is_star(p[0]) || p[0] == c[0] {
        seg_match(p.drop_first(), c.drop_first())
    } else {
        false
    }
}

/// Whether `q` matches some suffix `c.skip(j)` with `i <= j <= c.len()`.
pub open spec fn globstar_from(q: Seq<Seq<char>>, c: Seq<Seq<char>>, i: int) -> bool
    decreases q.len(), c.len() + 1 - i,
{
    if i < 0 || i > c.len() {
        false
    } else {
        seg_match(q, c.skip(i)) || globstar_from(q, c, i + 1)
    }
}

/// Whether channel name `channel` matches glob `pattern`.
pub open spec fn glob_matches(pattern: Seq<char>, channel: Seq<char>) -> bool {
    seg_match(split_on(pattern, colon()), split_on(channel, colon()))
}

/// Whether a grant allows `action` on `channel`.
pub open spec fn grant_allows(g: GrantModel, channel: Seq<char>, action: Seq<char>) -> bool {
    g.allow.contains(action) && glob_matches(g.pattern, channel)
}

/// Whether some grant of the claims allows `action` on `channel`.
pub open spec fn claims_allow(c: ClaimsModel, channel: Seq<char>, action: Seq<char>) -> bool {
    exists|i: int| 0 <= i < c.channels.len() && #[trigger] grant_allows(c.channels[i], channel, action)
}

proof fn lemma_globstar_from_exists(q: Seq<Seq<char>>, c: Seq<Seq<char>>, i: int)
    requires
        0 <= i,
    ensures
        globstar_from(q, c, i) == exists|j: int| i <= j <= c.len() && #[trigger] seg_match(q, c.skip(j)),
    decreases c.len() + 1 - i,
{
    if i <= c.len() {
        lemma_globstar_from_exists(q, c, i + 1);
        if seg_match(q, c.skip(i)) {
            assert(i <= i <= c.len() && seg_match(q, c.skip(i)));
        }
        if exists|j: int| i <= j <= c.len() && #[trigger] seg_match(q, c.skip(j)) {
            let j = choose|j: int| i <= j <= c.len() && #[trigger] seg_match(q, c.skip(j));
            if j != i {
                assert(i + 1 <= j <= c.len() && seg_match(q, c.skip(j)));
            }
        }
    }
}

fn seg_is_globstar(s: &String) -> (b: bool)
    ensures
        b == is_globstar(s@),
{
    let t = s.as_str();
    let n = t.unicode_len();
    if n != 2 {
        return false;
    }
    let b = t.get_char(0) == '*' && t.get_char(1) == '*';
    assert(b ==> t@ =~= seq!['*', '*']);
    b
}

fn seg_is_star(s: &String) -> (b: bool)
    ensures
        b == is_star(s@),
{
    let t = s.as_str();
    let n = t.unicode_len();
    if n != 1 {
        return false;
    }
    let b = t.get_char(0) == '*';
    assert(b ==> t@ =~= seq!['*']);
    b
}

/// Matching of pattern segments `p[pi..]` against channel segments `c[ci..]`.
fn seg_match_at(p: &Vec<String>, pi: usize, c: &Vec<String>, ci: usize) -> (b: bool)
    requires
        pi <= p@.len(),
        ci <= c@.len(),
    ensures
        b == seg_match(views(p@).skip(pi as int), views(c@).skip(ci as int)),
    decreases p@.len() - pi, c@.len() - ci,
{
    let ghost ps = views(p@).skip(pi as int);
    let ghost cs = views(c@).skip(ci as int);
    if pi == p.len() {
        return ci == c.len();
    }
    assert(ps[0] == p@[pi as int]@);
    assert(ps.drop_first() =~= views(p@).skip(pi as int + 1));
    if seg_is_globstar(&p[pi]) {
        if pi + 1 == p.len() {
            return true;
        }
        let next = pi + 1;
        let n = c.len();
        let mut i: usize = ci;
        assert(views(c@).len() == c@.len());
        assert(is_globstar(ps[0]) && ps.len() > 1);
        loop
            invariant
                ci <= i <= n,
                n == c@.len(),
                next == pi + 1,
                pi + 1 < p@.len(),
                views(c@).len() == c@.len(),
                cs == views(c@).skip(ci as int),
                ps == views(p@).skip(pi as int),
                ps.drop_first() == views(p@).skip(pi as int + 1),
                is_globstar(ps[0]),
                ps.len() > 1,
                forall|j: int|
                    ci <= j < i ==> !#[trigger] seg_match(views(p@).skip(pi as int + 1), views(c@).skip(j)),
            ensures
                forall|j: int|
                    ci <= j <= n ==> !#[trigger] seg_match(views(p@).skip(pi as int + 1), views(c@).skip(j)),
            decreases n - i,
        {
            if seg_match_at(p, next, c, i) {
                proof {
                    assert(cs.skip(i - ci) =~= views(c@).skip(i as int));
                    lemma_globstar_from_exists(ps.drop_first(), cs, 0);
                    assert(0 <= i - ci <= cs.len() && seg_match(ps.drop_first(), cs.skip(i - ci)));
                }
                return true;
            }
            if i == n {
                break;
            }
            i = i + 1;
        }
        proof {
            lemma_globstar_from_exists(ps.drop_first(), cs, 0);
            assert forall|j: int| 0 <= j <= cs.len() implies !#[trigger] seg_match(ps.drop_first(), cs.skip(j)) by {
                assert(cs.skip(j) =~= views(c@).skip(ci + j));
            }
        }
        return false;
    }
    if ci == c.len() {
        return false;
    }
    assert(cs[0] == c@[ci as int]@);
    assert(cs.drop_first() =~= views(c@).skip(ci as int + 1));
    if seg_is_star(&p[pi]) || p[pi] == c[ci] {
        seg_match_at(p, pi + 1, c, ci + 1)
    } else {
        false
    }
}

/// Glob matching by segments with separator `:`.
/// `*` matches exactly one segment; `**` matches any number of segments (globstar).
pub fn glob_match(pattern: &str, channel: &str) -> (b: bool)
    ensures
        b == glob_matches(pattern@, channel@),
{
    let p = split_segments(pattern);
    let c = split_segments(channel);
    assert(views(p@).skip(0) =~= views(p@));
    assert(views(c@).skip(0) =~= views(c@));
    seg_match_at(&p, 0, &c, 0)
}

fn allows_action(allow: &Vec<String>, action: &String) -> (b: bool)
    ensures
        b == views(allow@).contains(action@),
{
    let mut i: usize = 0;
    while i < allow.len()
        invariant
            i <= allow@.len(),
            forall|j: int| 0 <= j < i ==> allow@[j]@ != action@,
        decreases allow@.len() - i,
    {
        if allow[i] == *action {
            assert(views(allow@)[i as int] == action@);
            return true;
        }
        i = i + 1;
    }
    assert forall|j: int| 0 <= j < views(allow@).len() implies views(allow@)[j] != action@ by {
        assert(views(allow@)[j] == allow@[j]@);
    }
    false
}

impl Claims {
    /// Whether `action` on `channel` is allowed by at least one grant.
    pub fn allows(&self, channel: &str, action: &str) -> (b: bool)
        ensures
            b == claims_allow(self@, channel@, action@),
    {
        let act = action.to_owned();
        let mut i: usize = 0;
        while i < self.channels.len()
            invariant
                i <= self.channels@.len(),
                act@ == action@,
                forall|j: int|
                    0 <= j < i ==> !#[trigger] grant_allows(self@.channels[j], channel@, action@),
            decreases self.channels@.len() - i,
        {
            let g = &self.channels[i];
            assert(self@.channels[i as int] == g@);
            if allows_action(&g.allow, &act) && glob_match(g.pattern.as_str(), channel) {
                assert(grant_allows(self@.channels[i as int], channel@, action@));
                return true;
            }
            i = i + 1;
        }
        false
    }
}

// ─── laws of glob matching ───

/// A segment that is neither `*` nor `**`.
pub open spec fn is_literal(s: Seq<char>) -> bool {
    !is_star(s) && !is_globstar(s)
}

proof fn lemma_literal_segs(p: Seq<Seq<char>>, c: Seq<Seq<char>>)
    requires
        forall|i: int| 0 <= i < p.len() ==> is_literal(#[trigger] p[i]),
    ensures
        seg_match(p, c) == (p == c),
    decreases p.len(),
{
    if p.len() > 0 {
        assert(forall|i: int| 0 <= i < p.drop_first().len() ==> #[trigger] p.drop_first()[i] == p[i + 1]);
        lemma_literal_segs(p.drop_first(), c.drop_first());
        if c.len() > 0 && p[0] == c[0] && p.drop_first() == c.drop_first() {
            assert forall|i: int| 0 <= i < p.len() implies p[i] == c[i] by {
                if i > 0 {
                    assert(p[i] == p.drop_first()[i - 1]);
                    assert(c[i] == c.drop_first()[i - 1]);
                }
            }
            assert(p =~= c);
        }
        if p == c {
            assert(p.drop_first() =~= c.drop_first());
        }
    } else {
        if c.len() == 0 {
            assert(p =~= c);
        }
    }
}

/// A pattern whose segments hold no `*` or `**` matches exactly the channel spelled the same way.
pub proof fn lemma_literal_pattern_matches_only_itself(pattern: Seq<char>, channel: Seq<char>)
    requires
        forall|i: int|
            0 <= i < split_on(pattern, colon()).len() ==> is_literal(
                #[trigger] split_on(pattern, colon())[i],
            ),
    ensures
        glob_matches(pattern, channel) == (pattern == channel),
{
    lemma_literal_segs(split_on(pattern, colon()), split_on(channel, colon()));
    if split_on(pattern, colon()) == split_on(channel, colon()) {
        lemma_split_injective(pattern, channel, colon());
    }
}

proof fn lemma_no_globstar_same_len(p: Seq<Seq<char>>, c: Seq<Seq<char>>)
    requires
        forall|i: int| 0 <= i < p.len() ==> !is_globstar(#[trigger] p[i]),
        seg_match(p, c),
    ensures
        p.len() == c.len(),
    decreases p.len(),
{
    if p.len() > 0 {
        assert(forall|i: int| 0 <= i < p.drop_first().len() ==> #[trigger] p.drop_first()[i] == p[i + 1]);
        assert(!is_globstar(p[0]));
        lemma_no_globstar_same_len(p.drop_first(), c.drop_first());
    }
}

/// Without `**`, each pattern segment matches exactly one channel segment: a match has as many
/// segments as the pattern (so `news:*` matches `news:sports`, not `news:sports:football`).
pub proof fn lemma_star_is_one_segment(pattern: Seq<char>, channel: Seq<char>)
    requires
        forall|i: int|
            0 <= i < split_on(pattern, colon()).len() ==> !is_globstar(
                #[trigger] split_on(pattern, colon())[i],
            ),
        glob_matches(pattern, channel),
    ensures
        split_on(pattern, colon()).len() == split_on(channel, colon()).len(),
{
    lemma_no_globstar_same_len(split_on(pattern, colon()), split_on(channel, colon()));
}

proof fn lemma_extend_with_globstar(p: Seq<Seq<char>>, c: Seq<Seq<char>>, rest: Seq<Seq<char>>)
    requires
        seg_match(p, c),
    ensures
        seg_match(p.push(seq!['*', '*']), c + rest),
    decreases p.len(), 0int,
{
    let g = seq!['*', '*'];
    let pg = p.push(g);
    if p.len() == 0 {
        assert(pg =~= seq![g]);
        assert(c =~= Seq::<Seq<char>>::empty());
        assert(pg.len() == 1 && is_globstar(pg[0]));
    } else if is_globstar(p[0]) {
        assert(pg[0] == p[0]);
        assert(pg.drop_first() =~= p.drop_first().push(g));
        if p.len() == 1 {
            // `**` followed by `**`: the tail `**` matches everything.
            assert(pg.drop_first() =~= seq![g]);
            lemma_globstar_from_exists(pg.drop_first(), c + rest, 0);
            assert(seg_match(pg.drop_first(), (c + rest).skip(0)));
        } else {
            lemma_globstar_from_exists(p.drop_first(), c, 0);
            let j = choose|j: int| 0 <= j <= c.len() && #[trigger] seg_match(p.drop_first(), c.skip(j));
            lemma_extend_with_globstar(p.drop_first(), c.skip(j), rest);
            assert(c.skip(j) + rest =~= (c + rest).skip(j));
            lemma_globstar_from_exists(pg.drop_first(), c + rest, 0);
            assert(seg_match(pg.drop_first(), (c + rest).skip(j)));
        }
    } else {
        assert(c.len() > 0);
        assert(pg[0] == p[0]);
        assert((c + rest)[0] == c[0]);
        assert(pg.drop_first() =~= p.drop_first().push(g));
        assert((c + rest).drop_first() =~= c.drop_first() + rest);
        lemma_extend_with_globstar(p.drop_first(), c.drop_first(), rest);
    }
}

/// Appending a `**` segment to a pattern keeps every channel it matched, followed by any number
/// of further segments (so `news:**` matches `news`, `news:sports` and `news:sports:football`).
pub proof fn lemma_globstar_extends(
    pattern: Seq<char>,
    channel: Seq<char>,
    rest: Seq<Seq<char>>,
)
    requires
        glob_matches(pattern, channel),
    ensures
        seg_match(
            split_on(pattern, colon()).push(seq!['*', '*']),
            split_on(channel, colon()) + rest,
        ),
{
    lemma_extend_with_globstar(split_on(pattern, colon()), split_on(channel, colon()), rest);
}

/// `**` alone matches every channel.
pub proof fn lemma_globstar_matches_all(channel: Seq<char>)
    ensures
        glob_matches(seq!['*', '*'], channel),
{
    let p = seq!['*', '*'];
    assert(p.drop_last() =~= seq!['*']);
    assert(seq!['*'].drop_last() =~= Seq::<char>::empty());
    let e = Seq::<char>::empty();
    assert(e.push('*') =~= seq!['*']);
    assert(seq!['*'].push('*') =~= p);
    assert(split_on(e, colon()) == seq![e]);
    assert(split_on(seq!['*'], colon()) =~~= seq![seq!['*']]);
    assert(split_on(p, colon()) =~~= seq![p]);
}

} // verus!
