//! The credential-file parser: `[profile]` headers and `key = value` lines
//! turned into named identities.

use vstd::prelude::*;
use crate::text::{chars_of, find_char, find_from, opt_view, range_is, trim, trim_bounds};

verus! {

pub const ACCESS_KEY_FIELD: &'static str = "aws_access_key_id";

pub const SECRET_KEY_FIELD: &'static str = "aws_secret_access_key";

/// One named credential pair.
#[derive(Debug, PartialEq, Eq)]
pub struct Identity {
    pub name: String,
    pub access_key: String,
    pub secret_key: String,
}

pub struct IdentityView {
    pub name: Seq<char>,
    pub access_key: Seq<char>,
    pub secret_key: Seq<char>,
}

impl View for Identity {
    type V = IdentityView;

    open spec fn view(&self) -> IdentityView {
        IdentityView { name: self.name@, access_key: self.access_key@, secret_key: self.secret_key@ }
    }
}

impl Identity {
    pub fn duplicate(&self) -> (r: Identity)
        ensures
            r@ == self@,
    {
        Identity {
            name: self.name.clone(),
            access_key: self.access_key.clone(),
            secret_key: self.secret_key.clone(),
        }
    }
}

/// What one line of the file means to the parser.
pub enum LineKind {
    AccessKey(Seq<char>),
    SecretKey(Seq<char>),
    Header(Seq<char>),
    Other,
}

/// The part of a line before its first `=` (the whole line if it has none).
pub open spec fn field_part(line: Seq<char>) -> Seq<char> {
    line.subrange(0, find_from(line, 0, '='))
}

/// The part of a line between its first and its second `=` (or the end);
/// none where the line has no `=`.
pub open spec fn value_part(line: Seq<char>) -> Option<Seq<char>> {
    let e = find_from(line, 0, '=');
    if e < line.len() {
        Some(line.subrange(e + 1, find_from(line, e + 1, '=')))
    } else {
        None
    }
}

/// A header's profile name: the word with every bracket taken out.
pub open spec fn unbracket(w: Seq<char>) -> Seq<char> {
    w.filter(|c: char| c != '[' && c != ']')
}

pub open spec fn classify(line: Seq<char>) -> LineKind {
    let w = trim(field_part(line));
    if w == ACCESS_KEY_FIELD@ {
        match value_part(line) {
            Some(v) => LineKind::AccessKey(trim(v)),
            None => LineKind::Other,
        }
    } else if w == SECRET_KEY_FIELD@ {
        match value_part(line) {
            Some(v) => LineKind::SecretKey(trim(v)),
            None => LineKind::Other,
        }
    } else if w.len() > 0 && w[0] == '[' {
        LineKind::Header(unbracket(w))
    } else {
        LineKind::Other
    }
}

/// The section that is open and the fields gathered in it so far.
pub struct Pending {
    pub section: Option<Seq<char>>,
    pub key: Option<Seq<char>>,
    pub secret: Option<Seq<char>>,
}

pub open spec fn nothing_pending() -> Pending {
    Pending { section: None, key: None, secret: None }
}

/// A header opens a section with nothing gathered; a key or a secret counts
/// only inside an open section.
pub open spec fn absorb(p: Pending, line: Seq<char>) -> Pending {
    match classify(line) {
        LineKind::AccessKey(k) => if p.section is Some {
            Pending { key: Some(k), ..p }
        } else {
            p
        },
        LineKind::SecretKey(s) => if p.section is Some {
            Pending { secret: Some(s), ..p }
        } else {
            p
        },
        LineKind::Header(n) => Pending { section: Some(n), key: None, secret: None },
        LineKind::Other => p,
    }
}

pub open spec fn is_complete(p: Pending) -> bool {
    p.section is Some && p.key is Some && p.secret is Some
}

pub open spec fn identity_of(p: Pending) -> IdentityView {
    IdentityView { name: p.section->0, access_key: p.key->0, secret_key: p.secret->0 }
}

/// The parser's state after one more line: a completed section emits its
/// identity and starts gathering afresh, the section staying open.
pub open spec fn feed(st: (Pending, Seq<IdentityView>), line: Seq<char>) -> (
    Pending,
    Seq<IdentityView>,
) {
    let q = absorb(st.0, line);
    if is_complete(q) {
        (Pending { key: None, secret: None, ..q }, st.1.push(identity_of(q)))
    } else {
        (q, st.1)
    }
}

/// The parser's state after `lines`, from `st`.
pub open spec fn run_from(st: (Pending, Seq<IdentityView>), lines: Seq<Seq<char>>) -> (
    Pending,
    Seq<IdentityView>,
)
    decreases lines.len(),
{
    if lines.len() == 0 {
        st
    } else {
        feed(run_from(st, lines.drop_last()), lines.last())
    }
}

/// The parser after `lines`: what is pending, and one identity for each
/// section that became complete, in that order.
pub open spec fn parse_run(lines: Seq<Seq<char>>) -> (Pending, Seq<IdentityView>) {
    run_from((nothing_pending(), Seq::empty()), lines)
}

/// The identities not named `n`, in order.
pub open spec fn without(ids: Seq<IdentityView>, n: Seq<char>) -> Seq<IdentityView> {
    ids.filter(|x: IdentityView| x.name != n)
}

/// The identities in order, each dropped where a later one has its name.
pub open spec fn keep_latest(ids: Seq<IdentityView>) -> Seq<IdentityView>
    decreases ids.len(),
{
    if ids.len() == 0 {
        Seq::empty()
    } else {
        without(keep_latest(ids.drop_last()), ids.last().name).push(ids.last())
    }
}

/// The identities that the lines of a credentials file declare: the last
/// complete section of each name.
pub open spec fn parse_credentials(lines: Seq<Seq<char>>) -> Seq<IdentityView> {
    keep_latest(parse_run(lines).1)
}

pub open spec fn lines_view(lines: Seq<String>) -> Seq<Seq<char>> {
    lines.map_values(|l: String| l@)
}

pub open spec fn identities_view(ids: Seq<Identity>) -> Seq<IdentityView> {
    ids.map_values(|i: Identity| i@)
}

pub open spec fn names_distinct(ids: Seq<IdentityView>) -> bool {
    forall|i: int, j: int| 0 <= i < j < ids.len() ==> ids[i].name != ids[j].name
}

proof fn lemma_filter_from(ids: Seq<IdentityView>, n: Seq<char>)
    ensures
        forall|i: int|
            0 <= i < without(ids, n).len() ==> (#[trigger] without(ids, n)[i]).name != n
                && exists|k: int| 0 <= k < ids.len() && ids[k] == without(ids, n)[i],
    decreases ids.len(),
{
    reveal(Seq::filter);
    if ids.len() > 0 {
        let t = ids.drop_last();
        lemma_filter_from(t, n);
        let ft = without(t, n);
        assert forall|i: int| 0 <= i < ft.len() implies exists|k: int|
            0 <= k < ids.len() && ids[k] == #[trigger] ft[i] by {
            let k = choose|k: int| 0 <= k < t.len() && t[k] == ft[i];
            assert(ids[k] == t[k]);
        }
    }
}

proof fn lemma_filter_keeps_distinct(ids: Seq<IdentityView>, n: Seq<char>)
    requires
        names_distinct(ids),
    ensures
        names_distinct(without(ids, n)),
    decreases ids.len(),
{
    reveal(Seq::filter);
    if ids.len() > 0 {
        let t = ids.drop_last();
        let y = ids.last();
        lemma_filter_keeps_distinct(t, n);
        lemma_filter_from(t, n);
        let ft = without(t, n);
        if y.name != n {
            assert forall|i: int, j: int|
                0 <= i < j < ft.push(y).len() implies ft.push(y)[i].name != ft.push(y)[j].name by {
                if j == ft.len() {
                    let k = choose|k: int| 0 <= k < t.len() && t[k] == ft[i];
                    assert(ids[k] == t[k]);
                }
            }
        }
    }
}

/// The identities kept have distinct names.
pub proof fn lemma_keep_latest_distinct(ids: Seq<IdentityView>)
    ensures
        names_distinct(keep_latest(ids)),
    decreases ids.len(),
{
    if ids.len() > 0 {
        let y = ids.last();
        lemma_keep_latest_distinct(ids.drop_last());
        let f = without(keep_latest(ids.drop_last()), y.name);
        lemma_filter_keeps_distinct(keep_latest(ids.drop_last()), y.name);
        lemma_filter_from(keep_latest(ids.drop_last()), y.name);
        assert forall|i: int, j: int|
            0 <= i < j < f.push(y).len() implies f.push(y)[i].name != f.push(y)[j].name by {
            if j == f.len() {
                assert(f[i].name != y.name);
            }
        }
    }
}

proof fn lemma_run_append(
    st: (Pending, Seq<IdentityView>),
    a: Seq<Seq<char>>,
    b: Seq<Seq<char>>,
)
    ensures
        run_from(st, a + b) == run_from(run_from(st, a), b),
    decreases b.len(),
{
    if b.len() == 0 {
        assert(a + b =~= a);
    } else {
        lemma_run_append(st, a, b.drop_last());
        assert((a + b).drop_last() =~= a + b.drop_last());
        assert((a + b).last() == b.last());
    }
}

proof fn lemma_run_one(st: (Pending, Seq<IdentityView>), x: Seq<char>)
    ensures
        run_from(st, seq![x]) == feed(st, x),
{
    assert(seq![x].drop_last() =~= Seq::<Seq<char>>::empty());
    assert(run_from(st, seq![x].drop_last()) == st);
    assert(seq![x].last() == x);
}

/// A line that the parser passes over wherever it stands.
pub open spec fn is_other(line: Seq<char>) -> bool {
    classify(line) is Other
}

proof fn lemma_run_others(st: (Pending, Seq<IdentityView>), o: Seq<Seq<char>>)
    requires
        !is_complete(st.0),
        forall|k: int| 0 <= k < o.len() ==> is_other(#[trigger] o[k]),
    ensures
        run_from(st, o) == st,
    decreases o.len(),
{
    if o.len() > 0 {
        let t = o.drop_last();
        assert forall|k: int| 0 <= k < t.len() implies is_other(#[trigger] t[k]) by {
            assert(t[k] == o[k]);
        }
        lemma_run_others(st, t);
        assert(is_other(o.last()));
    }
}

proof fn lemma_run_preamble(pre: Seq<Seq<char>>)
    requires
        forall|k: int| 0 <= k < pre.len() ==> !(classify(#[trigger] pre[k]) is Header),
    ensures
        parse_run(pre) == (nothing_pending(), Seq::<IdentityView>::empty()),
    decreases pre.len(),
{
    if pre.len() > 0 {
        lemma_run_preamble(pre.drop_last());
    }
}

/// Lines before the first header, key and secret lines among them, set
/// nothing: the text parses as it would without them.
pub proof fn lemma_preamble_ignored(pre: Seq<Seq<char>>, rest: Seq<Seq<char>>)
    requires
        forall|k: int| 0 <= k < pre.len() ==> !(classify(#[trigger] pre[k]) is Header),
    ensures
        parse_run(pre + rest) == parse_run(rest),
        parse_credentials(pre + rest) == parse_credentials(rest),
{
    lemma_run_preamble(pre);
    lemma_run_append((nothing_pending(), Seq::empty()), pre, rest);
}

/// A section: its header line, then an access-key line and a secret-key line
/// in either order, with lines that the parser passes over around them.
pub struct Block {
    pub header: Seq<char>,
    pub gap1: Seq<Seq<char>>,
    pub first: Seq<char>,
    pub gap2: Seq<Seq<char>>,
    pub second: Seq<char>,
    pub gap3: Seq<Seq<char>>,
}

pub open spec fn block_lines(b: Block) -> Seq<Seq<char>> {
    seq![b.header] + b.gap1 + seq![b.first] + b.gap2 + seq![b.second] + b.gap3
}

pub open spec fn all_other(o: Seq<Seq<char>>) -> bool {
    forall|k: int| 0 <= k < o.len() ==> is_other(#[trigger] o[k])
}

pub open spec fn is_block(b: Block) -> bool {
    &&& classify(b.header) is Header
    &&& all_other(b.gap1)
    &&& all_other(b.gap2)
    &&& all_other(b.gap3)
    &&& ((classify(b.first) is AccessKey && classify(b.second) is SecretKey) || (classify(
        b.first,
    ) is SecretKey && classify(b.second) is AccessKey))
}

pub open spec fn block_identity(b: Block) -> IdentityView {
    let (k, s) = if classify(b.first) is AccessKey {
        (b.first, b.second)
    } else {
        (b.second, b.first)
    };
    IdentityView {
        name: classify(b.header)->Header_0,
        access_key: classify(k)->AccessKey_0,
        secret_key: classify(s)->SecretKey_0,
    }
}

/// The lines of consecutive blocks, in order.
pub open spec fn join_blocks(blocks: Seq<Block>) -> Seq<Seq<char>>
    decreases blocks.len(),
{
    if blocks.len() == 0 {
        Seq::empty()
    } else {
        join_blocks(blocks.drop_last()) + block_lines(blocks.last())
    }
}

pub open spec fn block_identities(blocks: Seq<Block>) -> Seq<IdentityView> {
    blocks.map_values(|b: Block| block_identity(b))
}

proof fn lemma_run_block(st: (Pending, Seq<IdentityView>), b: Block)
    requires
        is_block(b),
        st.0.key is None,
        st.0.secret is None,
    ensures
        run_from(st, block_lines(b)) == (
            Pending { section: Some(block_identity(b).name), key: None, secret: None },
            st.1.push(block_identity(b)),
        ),
{
    let h = seq![b.header];
    let x = seq![b.first];
    let y = seq![b.second];
    assert(block_lines(b) =~= h + b.gap1 + x + b.gap2 + y + b.gap3);
    lemma_run_append(st, h + b.gap1 + x + b.gap2 + y, b.gap3);
    lemma_run_append(st, h + b.gap1 + x + b.gap2, y);
    lemma_run_append(st, h + b.gap1 + x, b.gap2);
    lemma_run_append(st, h + b.gap1, x);
    lemma_run_append(st, h, b.gap1);
    lemma_run_one(st, b.header);
    let s1 = run_from(st, h);
    lemma_run_others(s1, b.gap1);
    lemma_run_one(s1, b.first);
    let s2 = run_from(s1, x);
    lemma_run_others(s2, b.gap2);
    lemma_run_one(s2, b.second);
    let s3 = run_from(s2, y);
    lemma_run_others(s3, b.gap3);
}

proof fn lemma_run_blocks(blocks: Seq<Block>)
    requires
        forall|k: int| 0 <= k < blocks.len() ==> is_block(#[trigger] blocks[k]),
    ensures
        parse_run(join_blocks(blocks)).0.key is None,
        parse_run(join_blocks(blocks)).0.secret is None,
        parse_run(join_blocks(blocks)).1 == block_identities(blocks),
    decreases blocks.len(),
{
    if blocks.len() == 0 {
        assert(block_identities(blocks) =~= Seq::empty());
    } else {
        let bs = blocks.drop_last();
        assert forall|k: int| 0 <= k < bs.len() implies is_block(#[trigger] bs[k]) by {
            assert(bs[k] == blocks[k]);
        }
        lemma_run_blocks(bs);
        assert(is_block(blocks.last()));
        lemma_run_append(
            (nothing_pending(), Seq::empty()),
            join_blocks(bs),
            block_lines(blocks.last()),
        );
        lemma_run_block(parse_run(join_blocks(bs)), blocks.last());
        assert(block_identities(blocks) =~= block_identities(bs).push(
            block_identity(blocks.last()),
        ));
    }
}

proof fn lemma_without_absent(ids: Seq<IdentityView>, n: Seq<char>)
    requires
        forall|k: int| 0 <= k < ids.len() ==> (#[trigger] ids[k]).name != n,
    ensures
        without(ids, n) == ids,
    decreases ids.len(),
{
    reveal(Seq::filter);
    if ids.len() > 0 {
        let t = ids.drop_last();
        assert forall|k: int| 0 <= k < t.len() implies (#[trigger] t[k]).name != n by {
            assert(t[k] == ids[k]);
        }
        lemma_without_absent(t, n);
        assert(t.push(ids.last()) =~= ids);
    }
}

proof fn lemma_keep_latest_of_distinct(ids: Seq<IdentityView>)
    requires
        names_distinct(ids),
    ensures
        keep_latest(ids) == ids,
    decreases ids.len(),
{
    if ids.len() > 0 {
        let t = ids.drop_last();
        assert(names_distinct(t)) by {
            assert forall|i: int, j: int| 0 <= i < j < t.len() implies t[i].name != t[j].name by {
                assert(t[i] == ids[i] && t[j] == ids[j]);
            }
        }
        lemma_keep_latest_of_distinct(t);
        assert forall|k: int| 0 <= k < t.len() implies (#[trigger] t[k]).name
            != ids.last().name by {
            assert(t[k] == ids[k]);
        }
        lemma_without_absent(t, ids.last().name);
        assert(t.push(ids.last()) =~= ids);
    }
}

/// Sections of a header, an access key and a secret key (in either order,
/// with lines the parser passes over among them) give one identity each, in
/// the order declared; lines before the first header give none. Where the
/// names differ, those identities are exactly what the parser returns.
pub proof fn lemma_parse_blocks(pre: Seq<Seq<char>>, blocks: Seq<Block>)
    requires
        forall|k: int| 0 <= k < pre.len() ==> !(classify(#[trigger] pre[k]) is Header),
        forall|k: int| 0 <= k < blocks.len() ==> is_block(#[trigger] blocks[k]),
    ensures
        parse_run(pre + join_blocks(blocks)).1 == block_identities(blocks),
        parse_credentials(pre + join_blocks(blocks)) == keep_latest(block_identities(blocks)),
        names_distinct(block_identities(blocks)) ==> parse_credentials(pre + join_blocks(blocks))
            == block_identities(blocks),
{
    lemma_preamble_ignored(pre, join_blocks(blocks));
    lemma_run_blocks(blocks);
    if names_distinct(block_identities(blocks)) {
        lemma_keep_latest_of_distinct(block_identities(blocks));
    }
}

/// Whether no identity after index `j` has the name of the one at `j`.
pub open spec fn is_last_of_name(ids: Seq<IdentityView>, j: int) -> bool {
    forall|m: int| j < m < ids.len() ==> #[trigger] ids[m].name != ids[j].name
}

/// Of the identities emitted, the parser keeps exactly those that no later
/// one of the same name replaces: each name with the key pair of its last
/// complete section.
pub proof fn lemma_last_section_wins(ids: Seq<IdentityView>)
    ensures
        forall|j: int|
            0 <= j < ids.len() && is_last_of_name(ids, j) ==> keep_latest(ids).contains(
                #[trigger] ids[j],
            ),
        forall|x: IdentityView|
            #[trigger] keep_latest(ids).contains(x) ==> exists|j: int|
                0 <= j < ids.len() && ids[j] == x && is_last_of_name(ids, j),
    decreases ids.len(),
{
    if ids.len() > 0 {
        let t = ids.drop_last();
        let y = ids.last();
        lemma_last_section_wins(t);
        let kt = keep_latest(t);
        let f = without(kt, y.name);
        lemma_filter_from(kt, y.name);
        assert(keep_latest(ids) == f.push(y));
        assert forall|j: int| 0 <= j < ids.len() && is_last_of_name(ids, j) implies keep_latest(
            ids,
        ).contains(#[trigger] ids[j]) by {
            if j == ids.len() - 1 {
                assert(f.push(y)[f.len() as int] == y);
            } else {
                assert(ids[j] == t[j]);
                assert(ids[j].name != y.name);
                assert(is_last_of_name(t, j)) by {
                    assert forall|m: int| j < m < t.len() implies #[trigger] t[m].name
                        != t[j].name by {
                        assert(t[m] == ids[m]);
                    }
                }
                assert(kt.contains(t[j]));
                let i = choose|i: int| 0 <= i < kt.len() && kt[i] == t[j];
                kt.lemma_filter_contains(|x: IdentityView| x.name != y.name, i);
                assert(f.contains(t[j]));
                let i2 = choose|i2: int| 0 <= i2 < f.len() && f[i2] == t[j];
                assert(f.push(y)[i2] == t[j]);
            }
        }
        assert forall|x: IdentityView| #[trigger] keep_latest(ids).contains(x) implies exists|j: int|
            0 <= j < ids.len() && ids[j] == x && is_last_of_name(ids, j) by {
            let i = choose|i: int| 0 <= i < f.push(y).len() && f.push(y)[i] == x;
            if i == f.len() {
                assert(ids[ids.len() - 1] == x);
            } else {
                assert(f[i] == x);
                assert(x.name != y.name);
                let k = choose|k: int| 0 <= k < kt.len() && kt[k] == f[i];
                assert(kt.contains(x));
                let j = choose|j: int| 0 <= j < t.len() && t[j] == x && is_last_of_name(t, j);
                assert(ids[j] == x);
                assert forall|m: int| j < m < ids.len() implies #[trigger] ids[m].name
                    != ids[j].name by {
                    if m < t.len() {
                        assert(ids[m] == t[m]);
                    }
                }
            }
        }
    }
}

/// A classified line, holding its text.
#[derive(Debug, PartialEq, Eq)]
pub enum LineClass {
    AccessKey(String),
    SecretKey(String),
    Header(String),
    Other,
}

impl View for LineClass {
    type V = LineKind;

    open spec fn view(&self) -> LineKind {
        match self {
            LineClass::AccessKey(s) => LineKind::AccessKey(s@),
            LineClass::SecretKey(s) => LineKind::SecretKey(s@),
            LineClass::Header(s) => LineKind::Header(s@),
            LineClass::Other => LineKind::Other,
        }
    }
}

/// `line[lo..hi]` as a string of its own.
fn slice_text(line: &String, lo: usize, hi: usize) -> (r: String)
    requires
        lo <= hi <= line@.len(),
    ensures
        r@ == line@.subrange(lo as int, hi as int),
{
    line.as_str().substring_char(lo, hi).to_owned()
}

/// `line[lo..hi]` with every bracket taken out.
fn unbracket_text(line: &String, lo: usize, hi: usize) -> (r: String)
    requires
        lo <= hi <= line@.len(),
    ensures
        r@ == unbracket(line@.subrange(lo as int, hi as int)),
{
    let chars = chars_of(line);
    let mut r = String::new();
    let mut i: usize = lo;
    proof {
        reveal(Seq::filter);
        assert(line@.subrange(lo as int, lo as int) =~= Seq::<char>::empty());
    }
    while i < hi
        invariant
            lo <= i <= hi <= line@.len(),
            chars@ == line@,
            r@ == unbracket(line@.subrange(lo as int, i as int)),
        decreases hi - i,
    {
        let c = chars[i];
        proof {
            reveal(Seq::filter);
            assert(line@.subrange(lo as int, i + 1).drop_last() =~= line@.subrange(
                lo as int,
                i as int,
            ));
        }
        if c != '[' && c != ']' {
            r.append(line.as_str().substring_char(i, i + 1));
            assert(r@ =~= unbracket(line@.subrange(lo as int, i + 1)));
        }
        i = i + 1;
    }
    r
}

/// The value of a `key = value` line whose `=` stands at `e`, trimmed.
fn value_text(line: &String, chars: &Vec<char>, e: usize) -> (r: String)
    requires
        chars@ == line@,
        e < line@.len(),
        e == find_from(line@, 0, '='),
    ensures
        value_part(line@) is Some,
        r@ == trim(value_part(line@)->0),
{
    let n = chars.len();
    assert(e < n);
    let f = find_char(chars, e + 1, '=');
    let (a, b) = trim_bounds(chars, e + 1, f);
    slice_text(line, a, b)
}

/// What one line means to the parser.
pub fn classify_line(line: &String) -> (r: LineClass)
    ensures
        r@ == classify(line@),
{
    let chars = chars_of(line);
    let e = find_char(&chars, 0, '=');
    let (a, b) = trim_bounds(&chars, 0, e);
    let has_value = e < chars.len();
    if range_is(&chars, a, b, ACCESS_KEY_FIELD) {
        if has_value {
            LineClass::AccessKey(value_text(line, &chars, e))
        } else {
            LineClass::Other
        }
    } else if range_is(&chars, a, b, SECRET_KEY_FIELD) {
        if has_value {
            LineClass::SecretKey(value_text(line, &chars, e))
        } else {
            LineClass::Other
        }
    } else if a < b && chars[a] == '[' {
        LineClass::Header(unbracket_text(line, a, b))
    } else {
        LineClass::Other
    }
}

/// The identities other than those named `name`, in order.
fn without_name(creds: &Vec<Identity>, name: &String) -> (r: Vec<Identity>)
    ensures
        identities_view(r@) == without(identities_view(creds@), name@),
{
    let mut r: Vec<Identity> = Vec::new();
    let mut i: usize = 0;
    while i < creds.len()
        invariant
            i <= creds@.len(),
            identities_view(r@) == without(identities_view(creds@).take(i as int), name@),
        decreases creds@.len() - i,
    {
        proof {
            reveal(Seq::filter);
            assert(identities_view(creds@).take(i + 1).drop_last() =~= identities_view(
                creds@,
            ).take(i as int));
        }
        if creds[i].name != *name {
            r.push(creds[i].duplicate());
        }
        assert(identities_view(r@) =~= without(identities_view(creds@).take(i + 1), name@));
        i = i + 1;
    }
    assert(identities_view(creds@).take(creds@.len() as int) =~= identities_view(creds@));
    r
}

/// The identities declared by the lines of a credentials file: for each
/// name, the last section of that name that became complete, in the order
/// in which those sections became complete.
pub fn aws_creds_list(lines: Vec<String>) -> (creds: Vec<Identity>)
    ensures
        identities_view(creds@) == parse_credentials(lines_view(lines@)),
        names_distinct(identities_view(creds@)),
{
    let mut section: Option<String> = None;
    let mut key: Option<String> = None;
    let mut secret: Option<String> = None;
    let mut creds: Vec<Identity> = Vec::new();
    let mut i: usize = 0;
    while i < lines.len()
        invariant
            i <= lines@.len(),
            parse_run(lines_view(lines@).take(i as int)).0 == (Pending {
                section: opt_view(section),
                key: opt_view(key),
                secret: opt_view(secret),
            }),
            identities_view(creds@) == keep_latest(parse_run(lines_view(lines@).take(i as int)).1),
        decreases lines@.len() - i,
    {
        let ghost before = lines_view(lines@).take(i as int);
        proof {
            assert(lines_view(lines@).take(i + 1).drop_last() =~= before);
        }
        match classify_line(&lines[i]) {
            LineClass::AccessKey(k) => {
                if section.is_some() {
                    key = Some(k);
                }
            },
            LineClass::SecretKey(s) => {
                if section.is_some() {
                    secret = Some(s);
                }
            },
            LineClass::Header(n) => {
                section = Some(n);
                key = None;
                secret = None;
            },
            LineClass::Other => {},
        }
        if let Some(name) = &section {
            match (key.take(), secret.take()) {
                (Some(k), Some(s)) => {
                    let mut kept = without_name(&creds, name);
                    let id = Identity { name: name.clone(), access_key: k, secret_key: s };
                    let ghost emitted = parse_run(before).1;
                    assert(parse_run(lines_view(lines@).take(i + 1)).1 == emitted.push(id@));
                    assert(keep_latest(emitted.push(id@)) == without(keep_latest(emitted), id@.name).push(id@)) by {
                        assert(emitted.push(id@).drop_last() =~= emitted);
                    }
                    kept.push(id);
                    assert(identities_view(kept@) =~= without(identities_view(creds@), name@).push(id@));
                    creds = kept;
                },
                (k, s) => {
                    key = k;
                    secret = s;
                },
            }
        }
        i = i + 1;
    }
    assert(lines_view(lines@).take(lines@.len() as int) =~= lines_view(lines@));
    proof {
        lemma_keep_latest_distinct(parse_run(lines_view(lines@)).1);
    }
    creds
}

} // verus!
