//! The line-level grammar of map text: whitespace, trimming, and the split
//! into legend lines and grid rows.

use vstd::prelude::*;
use crate::entities::id::EntityId;
use crate::util::decimal::string_push;
use crate::util::text::string_push_str;

verus! {

/// Unicode White_Space, the property `char::is_whitespace` tests.
pub open spec fn is_ws(c: char) -> bool {
    let n = c as u32;
    ||| 0x09 <= n <= 0x0d
    ||| n == 0x20
    ||| n == 0x85
    ||| n == 0xa0
    ||| n == 0x1680
    ||| 0x2000 <= n <= 0x200a
    ||| n == 0x2028
    ||| n == 0x2029
    ||| n == 0x202f
    ||| n == 0x205f
    ||| n == 0x3000
}

/// Whether `c` is Unicode white space.
pub fn is_whitespace(c: char) -> (b: bool)
    ensures
        b == is_ws(c),
{
    let n = c as u32;
    (0x09 <= n && n <= 0x0d) || n == 0x20 || n == 0x85 || n == 0xa0 || n == 0x1680 || (0x2000 <= n && n
        <= 0x200a) || n == 0x2028 || n == 0x2029 || n == 0x202f || n == 0x205f || n == 0x3000
}

/// `s` without its trailing white space.
pub open spec fn trim_end(s: Seq<char>) -> Seq<char>
    decreases s.len(),
{
    if s.len() > 0 && is_ws(s.last()) {
        trim_end(s.drop_last())
    } else {
        s
    }
}

/// `s` without its leading white space.
pub open spec fn trim_start(s: Seq<char>) -> Seq<char>
    decreases s.len(),
{
    if s.len() > 0 && is_ws(s[0]) {
        trim_start(s.drop_first())
    } else {
        s
    }
}

/// `s` without white space at either end.
pub open spec fn trim(s: Seq<char>) -> Seq<char> {
    trim_start(trim_end(s))
}

/// The pieces of `s` between newlines (a `\r` before a newline is trailing
/// white space, trimmed with the rest).
pub open spec fn split_newlines(s: Seq<char>) -> Seq<Seq<char>>
    decreases s.len(),
{
    if s.len() == 0 {
        seq![Seq::empty()]
    } else {
        let p = split_newlines(s.drop_last());
        if s.last() == '\n' {
            p.push(Seq::empty())
        } else {
            p.drop_last().push(p.last().push(s.last()))
        }
    }
}

/// The meaningful lines: each piece with its trailing white space trimmed,
/// blank ones dropped.
pub open spec fn keep_lines(pieces: Seq<Seq<char>>) -> Seq<Seq<char>>
    decreases pieces.len(),
{
    if pieces.len() == 0 {
        Seq::empty()
    } else {
        let p = keep_lines(pieces.drop_last());
        let t = trim_end(pieces.last());
        if t.len() > 0 {
            p.push(t)
        } else {
            p
        }
    }
}

/// The meaningful lines of a text, in order.
pub open spec fn text_lines(s: Seq<char>) -> Seq<Seq<char>> {
    keep_lines(split_newlines(s))
}

/// The lines holding `=` (legend entries), in order.
pub open spec fn legend_lines(lines: Seq<Seq<char>>) -> Seq<Seq<char>>
    decreases lines.len(),
{
    if lines.len() == 0 {
        Seq::empty()
    } else {
        let p = legend_lines(lines.drop_last());
        if lines.last().contains('=') {
            p.push(lines.last())
        } else {
            p
        }
    }
}

/// The lines without `=` (grid rows), in order.
pub open spec fn grid_lines(lines: Seq<Seq<char>>) -> Seq<Seq<char>>
    decreases lines.len(),
{
    if lines.len() == 0 {
        Seq::empty()
    } else {
        let p = grid_lines(lines.drop_last());
        if lines.last().contains('=') {
            p
        } else {
            p.push(lines.last())
        }
    }
}

/// The contents of a list of character vectors.
pub open spec fn views(v: Seq<Vec<char>>) -> Seq<Seq<char>> {
    v.map_values(|x: Vec<char>| x@)
}

proof fn lemma_split_nonempty(s: Seq<char>)
    ensures
        split_newlines(s).len() >= 1,
    decreases s.len(),
{
    if s.len() > 0 {
        lemma_split_nonempty(s.drop_last());
    }
}

/// `s` without its trailing white space.
pub fn trim_end_chars(s: &Vec<char>) -> (r: Vec<char>)
    ensures
        r@ == trim_end(s@),
{
    let mut n: usize = s.len();
    assert(s@.subrange(0, n as int) =~= s@);
    while n > 0 && is_whitespace(s[n - 1])
        invariant
            n <= s@.len(),
            trim_end(s@) == trim_end(s@.subrange(0, n as int)),
        decreases n,
    {
        assert(s@.subrange(0, n as int).drop_last() =~= s@.subrange(0, n - 1));
        n = n - 1;
    }
    let mut r: Vec<char> = Vec::new();
    let mut i: usize = 0;
    while i < n
        invariant
            n <= s@.len(),
            i <= n,
            r@ == s@.subrange(0, i as int),
        decreases n - i,
    {
        r.push(s[i]);
        assert(r@ =~= s@.subrange(0, i + 1));
        i = i + 1;
    }
    r
}

/// `s` without its leading white space.
pub fn trim_start_chars(s: &Vec<char>) -> (r: Vec<char>)
    ensures
        r@ == trim_start(s@),
{
    let mut k: usize = 0;
    assert(s@.subrange(0, s@.len() as int) =~= s@);
    while k < s.len() && is_whitespace(s[k])
        invariant
            k <= s@.len(),
            trim_start(s@) == trim_start(s@.subrange(k as int, s@.len() as int)),
        decreases s@.len() - k,
    {
        assert(s@.subrange(k as int, s@.len() as int).drop_first() =~= s@.subrange(k + 1, s@.len() as int));
        k = k + 1;
    }
    let mut r: Vec<char> = Vec::new();
    let mut i: usize = k;
    while i < s.len()
        invariant
            k <= i <= s@.len(),
            r@ == s@.subrange(k as int, i as int),
        decreases s@.len() - i,
    {
        r.push(s[i]);
        assert(r@ =~= s@.subrange(k as int, i + 1));
        i = i + 1;
    }
    r
}

/// Whether `s` holds an `=`.
pub fn has_equals(s: &Vec<char>) -> (b: bool)
    ensures
        b == s@.contains('='),
{
    let mut i: usize = 0;
    while i < s.len()
        invariant
            i <= s@.len(),
            forall|j: int| 0 <= j < i ==> s@[j] != '=',
        decreases s@.len() - i,
    {
        if s[i] == '=' {
            assert(s@[i as int] == '=');
            return true;
        }
        i = i + 1;
    }
    false
}

/// Files one finished piece: trimmed, dropped when blank, else onto the
/// legend or the grid by whether it holds `=`.
fn file_piece(piece: &Vec<char>, legend: &mut Vec<Vec<char>>, rows: &mut Vec<Vec<char>>, Ghost(done): Ghost<Seq<Seq<char>>>)
    requires
        views(old(legend)@) == legend_lines(keep_lines(done)),
        views(old(rows)@) == grid_lines(keep_lines(done)),
    ensures
        views(final(legend)@) == legend_lines(keep_lines(done.push(piece@))),
        views(final(rows)@) == grid_lines(keep_lines(done.push(piece@))),
{
    let t = trim_end_chars(piece);
    assert(done.push(piece@).drop_last() =~= done);
    if t.len() > 0 {
        let ghost lines = keep_lines(done);
        assert(keep_lines(done.push(piece@)) == lines.push(t@));
        assert(lines.push(t@).drop_last() =~= lines);
        if has_equals(&t) {
            legend.push(t);
            assert(views(legend@) =~= views(old(legend)@).push(t@));
        } else {
            rows.push(t);
            assert(views(rows@) =~= views(old(rows)@).push(t@));
        }
    }
}

/// Splits map text into its legend lines and its grid rows, each trimmed of
/// trailing white space, blank lines dropped, order kept.
pub fn split_map_text(text: &Vec<char>) -> (r: (Vec<Vec<char>>, Vec<Vec<char>>))
    ensures
        views(r.0@) == legend_lines(text_lines(text@)),
        views(r.1@) == grid_lines(text_lines(text@)),
{
    let mut legend: Vec<Vec<char>> = Vec::new();
    let mut rows: Vec<Vec<char>> = Vec::new();
    let mut current: Vec<char> = Vec::new();
    let ghost mut done: Seq<Seq<char>> = Seq::empty();
    assert(views(legend@) =~= Seq::<Seq<char>>::empty());
    assert(views(rows@) =~= Seq::<Seq<char>>::empty());
    assert(text@.subrange(0, 0) =~= Seq::<char>::empty());
    let mut i: usize = 0;
    while i < text.len()
        invariant
            i <= text@.len(),
            split_newlines(text@.subrange(0, i as int)) == done.push(current@),
            views(legend@) == legend_lines(keep_lines(done)),
            views(rows@) == grid_lines(keep_lines(done)),
        decreases text@.len() - i,
    {
        let c = text[i];
        let ghost prefix = text@.subrange(0, i + 1);
        assert(prefix.drop_last() =~= text@.subrange(0, i as int));
        if c == '\n' {
            file_piece(&current, &mut legend, &mut rows, Ghost(done));
            proof {
                done = done.push(current@);
            }
            current = Vec::new();
            assert(split_newlines(prefix) =~= done.push(current@));
        } else {
            let ghost before = current@;
            current.push(c);
            proof {
                let p = split_newlines(text@.subrange(0, i as int));
                assert(p.drop_last() =~= done);
                assert(p.last() == before);
                assert(split_newlines(prefix) =~= done.push(current@));
            }
        }
        i = i + 1;
    }
    assert(text@.subrange(0, text@.len() as int) =~= text@);
    file_piece(&current, &mut legend, &mut rows, Ghost(done));
    (legend, rows)
}

/// The contents of a list of strings.
pub open spec fn texts(v: Seq<String>) -> Seq<Seq<char>> {
    v.map_values(|x: String| x@)
}

/// A string holding exactly `chars`.
pub fn string_of(chars: &Vec<char>) -> (s: String)
    ensures
        s@ == chars@,
{
    let mut s = String::new();
    let mut i: usize = 0;
    while i < chars.len()
        invariant
            i <= chars@.len(),
            s@ == chars@.subrange(0, i as int),
        decreases chars@.len() - i,
    {
        string_push(&mut s, chars[i]);
        assert(s@ =~= chars@.subrange(0, i + 1));
        i = i + 1;
    }
    assert(chars@.subrange(0, chars@.len() as int) =~= chars@);
    s
}

/// Appends `chars` to `s`.
pub fn push_chars(s: &mut String, chars: &Vec<char>)
    ensures
        final(s)@ == old(s)@ + chars@,
{
    let mut i: usize = 0;
    while i < chars.len()
        invariant
            i <= chars@.len(),
            s@ == old(s)@ + chars@.subrange(0, i as int),
        decreases chars@.len() - i,
    {
        string_push(s, chars[i]);
        assert(s@ =~= old(s)@ + chars@.subrange(0, i + 1));
        i = i + 1;
    }
    assert(chars@.subrange(0, chars@.len() as int) =~= chars@);
}

/// Where the first `=` of `s` sits.
pub open spec fn first_equals(s: Seq<char>) -> int {
    choose|j: int| 0 <= j < s.len() && s[j] == '=' && forall|i: int| 0 <= i < j ==> s[i] != '='
}

/// A legend line's glyph: what comes before the first `=`, trimmed.
pub open spec fn legend_glyph(line: Seq<char>) -> Seq<char> {
    trim(line.take(first_equals(line)))
}

/// A legend line's data key: what follows the first `=`, trimmed.
pub open spec fn legend_key(line: Seq<char>) -> Seq<char> {
    trim(line.skip(first_equals(line) + 1))
}

/// The legend slot a letter names: `a`-`z` are 0..26, `A`-`Z` are 26..52.
pub open spec fn letter_slot(c: char) -> Option<int> {
    let n = c as u32;
    if 0x61 <= n <= 0x7a {
        Some(n - 0x61)
    } else if 0x41 <= n <= 0x5a {
        Some(n - 0x41 + 26)
    } else {
        None
    }
}

/// The slot a legend glyph names: it must be exactly one letter.
pub open spec fn glyph_slot(glyph: Seq<char>) -> Option<int> {
    if glyph.len() == 1 {
        letter_slot(glyph[0])
    } else {
        None
    }
}

/// The legend slot of a letter.
pub fn letter_slot_of(c: char) -> (r: Option<usize>)
    ensures
        r matches Some(v) ==> letter_slot(c) == Some(v as int),
        r is None ==> letter_slot(c) is None,
{
    let n = c as u32;
    if 0x61 <= n && n <= 0x7a {
        Some((n - 0x61) as usize)
    } else if 0x41 <= n && n <= 0x5a {
        Some((n - 0x41 + 26) as usize)
    } else {
        None
    }
}

/// Splits a legend line at its first `=` into trimmed glyph and key.
pub fn legend_parts(line: &Vec<char>) -> (r: (Vec<char>, Vec<char>))
    requires
        line@.contains('='),
    ensures
        r.0@ == legend_glyph(line@),
        r.1@ == legend_key(line@),
{
    let mut j: usize = 0;
    while j < line.len() && line[j] != '='
        invariant
            j <= line@.len(),
            forall|i: int| 0 <= i < j ==> line@[i] != '=',
        decreases line@.len() - j,
    {
        j = j + 1;
    }
    if j == line.len() {
        proof {
            let w = choose|w: int| 0 <= w < line@.len() && line@[w] == '=';
            assert(line@[w] != '=');
        }
    }
    proof {
        let f = first_equals(line@);
        assert(0 <= j < line@.len() && line@[j as int] == '=' && forall|i: int| 0 <= i < j ==> line@[i] != '=');
        if f < j {
            assert(line@[f] != '=');
        } else if f > j {
            assert(line@[j as int] != '=');
        }
    }
    let mut before: Vec<char> = Vec::new();
    let mut after: Vec<char> = Vec::new();
    let mut i: usize = 0;
    while i < line.len()
        invariant
            j < line@.len(),
            i <= line@.len(),
            before@ == line@.subrange(0, if i <= j { i as int } else { j as int }),
            after@ == line@.subrange(j + 1, if i <= j + 1 { j + 1 } else { i as int }),
        decreases line@.len() - i,
    {
        if i < j {
            before.push(line[i]);
            assert(before@ =~= line@.subrange(0, i + 1));
        } else if i > j {
            after.push(line[i]);
            assert(after@ =~= line@.subrange(j + 1, i + 1));
        }
        i = i + 1;
    }
    assert(before@ =~= line@.take(j as int));
    assert(after@ =~= line@.skip(j + 1));
    let glyph = trim_start_chars(&trim_end_chars(&before));
    let key = trim_start_chars(&trim_end_chars(&after));
    (glyph, key)
}

/// The error for a legend glyph that is not a single letter.
pub open spec fn not_a_letter(glyph: Seq<char>) -> Seq<char> {
    "legend glyph '"@ + glyph + "' is not a letter"@
}

/// The error for a legend key the lookup does not know.
pub open spec fn unknown_key(glyph: Seq<char>, key: Seq<char>) -> Seq<char> {
    "legend '"@ + glyph + "' names unknown id '"@ + key + "'"@
}

/// A key lookup the parser can consult: callable on any text, and giving
/// the same answer for the same text.
pub open spec fn lookup_ok<F: Fn(&str) -> Option<EntityId>>(resolve: F) -> bool {
    &&& forall|k: &str| call_requires(resolve, (k,))
    &&& forall|a: &str, b: &str, x: Option<EntityId>, y: Option<EntityId>|
        #![trigger call_ensures(resolve, (a,), x), call_ensures(resolve, (b,), y)]
        a@ == b@ && call_ensures(resolve, (a,), x) && call_ensures(resolve, (b,), y) ==> x == y
}

/// The lookup can answer `r` for a text reading `key`.
pub open spec fn answers<F: Fn(&str) -> Option<EntityId>>(resolve: F, key: Seq<char>, r: Option<EntityId>) -> bool {
    exists|k: &str| k@ == key && #[trigger] call_ensures(resolve, (k,), r)
}

/// What the lookup answers for `key`.
pub open spec fn looked_up<F: Fn(&str) -> Option<EntityId>>(resolve: F, key: Seq<char>) -> Option<EntityId> {
    choose|r: Option<EntityId>| #[trigger] answers(resolve, key, r)
}

/// One legend line read onto the table and the errors so far.
pub open spec fn legend_step<F: Fn(&str) -> Option<EntityId>>(
    resolve: F,
    state: (Seq<EntityId>, Seq<Seq<char>>),
    line: Seq<char>,
) -> (Seq<EntityId>, Seq<Seq<char>>) {
    let (table, errors) = state;
    let glyph = legend_glyph(line);
    match glyph_slot(glyph) {
        None => (table, errors.push(not_a_letter(glyph))),
        Some(slot) => match looked_up(resolve, legend_key(line)) {
            Some(id) => (table.update(slot, id), errors),
            None => (table, errors.push(unknown_key(glyph, legend_key(line)))),
        },
    }
}

/// The legend after reading `lines` in order — 52 slots, each the last id a
/// line filed there, null when none did — and the errors met on the way.
pub open spec fn read_legend<F: Fn(&str) -> Option<EntityId>>(resolve: F, lines: Seq<Seq<char>>) -> (Seq<EntityId>, Seq<Seq<char>>)
    decreases lines.len(),
{
    if lines.len() == 0 {
        (Seq::new(52, |i: int| EntityId::null_spec()), Seq::empty())
    } else {
        legend_step(resolve, read_legend(resolve, lines.drop_last()), lines.last())
    }
}

/// Reads one legend line onto `table` and `errors`.
fn read_legend_line<F: Fn(&str) -> Option<EntityId>>(
    line: &Vec<char>,
    resolve: &F,
    table: &mut Vec<EntityId>,
    errors: &mut Vec<String>,
)
    requires
        lookup_ok(*resolve),
        line@.contains('='),
        old(table)@.len() == 52,
    ensures
        final(table)@.len() == 52,
        (final(table)@, texts(final(errors)@)) == legend_step(*resolve, (old(table)@, texts(old(errors)@)), line@),
{
    let (glyph, key) = legend_parts(line);
    let slot = if glyph.len() == 1 { letter_slot_of(glyph[0]) } else { None };
    match slot {
        None => {
            let mut msg = String::new();
            string_push_str(&mut msg, "legend glyph '");
            push_chars(&mut msg, &glyph);
            string_push_str(&mut msg, "' is not a letter");
            errors.push(msg);
            assert(texts(errors@) =~= texts(old(errors)@).push(not_a_letter(glyph@)));
        },
        Some(slot) => {
            let k = string_of(&key);
            let found = resolve(k.as_str());
            proof {
                assert(answers(*resolve, key@, found));
                let r2 = looked_up(*resolve, key@);
                let k2 = choose|k2: &str| k2@ == key@ && #[trigger] call_ensures(*resolve, (k2,), r2);
                assert(call_ensures(*resolve, (k2,), r2));
                assert(r2 == found);
            }
            match found {
                Some(id) => {
                    table.set(slot, id);
                },
                None => {
                    let mut msg = String::new();
                    string_push_str(&mut msg, "legend '");
                    push_chars(&mut msg, &glyph);
                    string_push_str(&mut msg, "' names unknown id '");
                    push_chars(&mut msg, &key);
                    string_push_str(&mut msg, "'");
                    errors.push(msg);
                    assert(texts(errors@) =~= texts(old(errors)@).push(unknown_key(glyph@, key@)));
                },
            }
        },
    }
}

/// Reads the legend lines: the 52-slot table and the errors, in line order.
pub fn read_legend_lines<F: Fn(&str) -> Option<EntityId>>(legend: &Vec<Vec<char>>, resolve: &F) -> (r: (Vec<EntityId>, Vec<String>))
    requires
        lookup_ok(*resolve),
        forall|i: int| 0 <= i < legend@.len() ==> (#[trigger] legend@[i])@.contains('='),
    ensures
        (r.0@, texts(r.1@)) == read_legend(*resolve, views(legend@)),
{
    let mut table: Vec<EntityId> = Vec::new();
    let mut n: usize = 0;
    while n < 52
        invariant
            n <= 52,
            table@ == Seq::new(n as nat, |i: int| EntityId::null_spec()),
        decreases 52 - n,
    {
        table.push(EntityId::null());
        n = n + 1;
        assert(table@ =~= Seq::new(n as nat, |i: int| EntityId::null_spec()));
    }
    let mut errors: Vec<String> = Vec::new();
    let ghost lines = views(legend@);
    assert(lines.take(0) =~= Seq::<Seq<char>>::empty());
    assert(texts(errors@) =~= Seq::<Seq<char>>::empty());
    let mut i: usize = 0;
    while i < legend.len()
        invariant
            lookup_ok(*resolve),
            lines == views(legend@),
            forall|i: int| 0 <= i < legend@.len() ==> (#[trigger] legend@[i])@.contains('='),
            i <= legend@.len(),
            (table@, texts(errors@)) == read_legend(*resolve, lines.take(i as int)),
            table@.len() == 52,
        decreases legend@.len() - i,
    {
        let line = &legend[i];
        assert(line@ == lines[i as int]);
        assert(lines.take(i + 1).drop_last() =~= lines.take(i as int));
        read_legend_line(line, resolve, &mut table, &mut errors);
        i = i + 1;
    }
    assert(lines.take(legend@.len() as int) =~= lines);
    (table, errors)
}

/// Bytes `c` takes in UTF-8.
pub open spec fn utf8_width(c: char) -> nat {
    let n = c as u32;
    if n < 0x80 {
        1
    } else if n < 0x800 {
        2
    } else if n < 0x1_0000 {
        3
    } else {
        4
    }
}

pub fn utf8_width_of(c: char) -> (w: u128)
    ensures
        w == utf8_width(c),
{
    let n = c as u32;
    if n < 0x80 {
        1
    } else if n < 0x800 {
        2
    } else if n < 0x1_0000 {
        3
    } else {
        4
    }
}

/// Bytes of leading white space in `s`.
pub open spec fn lead_bytes(s: Seq<char>) -> nat
    decreases s.len(),
{
    if s.len() > 0 && is_ws(s[0]) {
        utf8_width(s[0]) + lead_bytes(s.drop_first())
    } else {
        0
    }
}

/// The rows' common indentation: the least leading-white-space byte count,
/// 0 when there are no rows.
pub open spec fn common_indent(rows: Seq<Seq<char>>) -> nat
    decreases rows.len(),
{
    if rows.len() == 0 {
        0
    } else if rows.len() == 1 {
        lead_bytes(rows[0])
    } else {
        let p = common_indent(rows.drop_last());
        let l = lead_bytes(rows.last());
        if l < p {
            l
        } else {
            p
        }
    }
}

/// `s` with its first `b` bytes cut off, when they end on a character
/// boundary.
pub open spec fn cut_bytes(s: Seq<char>, b: nat) -> Option<Seq<char>>
    decreases s.len(),
{
    if b == 0 {
        Some(s)
    } else if s.len() == 0 || utf8_width(s[0]) > b {
        None
    } else {
        cut_bytes(s.drop_first(), (b - utf8_width(s[0])) as nat)
    }
}

/// Every row can lose the common indentation at a character boundary.
pub open spec fn dedentable(rows: Seq<Seq<char>>) -> bool {
    forall|i: int| 0 <= i < rows.len() ==> (#[trigger] cut_bytes(rows[i], common_indent(rows))) is Some
}

/// The rows with the common indentation cut off.
pub open spec fn dedent(rows: Seq<Seq<char>>) -> Seq<Seq<char>> {
    rows.map_values(
        |r: Seq<char>|
            match cut_bytes(r, common_indent(rows)) {
                Some(t) => t,
                None => Seq::empty(),
            },
    )
}

/// The longest row's length in characters, 0 when there are none.
pub open spec fn widest(rows: Seq<Seq<char>>) -> nat
    decreases rows.len(),
{
    if rows.len() == 0 {
        0
    } else {
        let p = widest(rows.drop_last());
        if rows.last().len() > p {
            rows.last().len()
        } else {
            p
        }
    }
}

/// Bytes of leading white space in `s`.
fn lead_bytes_of(s: &Vec<char>) -> (n: u128)
    ensures
        n == lead_bytes(s@),
{
    let mut acc: u128 = 0;
    let mut k: usize = 0;
    assert(s@.skip(0) =~= s@);
    while k < s.len() && is_whitespace(s[k])
        invariant
            k <= s@.len(),
            acc <= 4 * k,
            lead_bytes(s@) == acc + lead_bytes(s@.skip(k as int)),
        decreases s@.len() - k,
    {
        assert(s@.skip(k as int).drop_first() =~= s@.skip(k + 1));
        acc = acc + utf8_width_of(s[k]);
        k = k + 1;
    }
    acc
}

/// The rows' common indentation, in bytes.
fn common_indent_of(rows: &Vec<Vec<char>>) -> (n: u128)
    ensures
        n == common_indent(views(rows@)),
{
    let ghost v = views(rows@);
    if rows.len() == 0 {
        return 0;
    }
    let mut least = lead_bytes_of(&rows[0]);
    assert(v.take(1).len() == 1 && v.take(1)[0] == v[0]);
    let mut i: usize = 1;
    while i < rows.len()
        invariant
            v == views(rows@),
            1 <= i <= rows@.len(),
            least == common_indent(v.take(i as int)),
        decreases rows@.len() - i,
    {
        let l = lead_bytes_of(&rows[i]);
        assert(v.take(i + 1).drop_last() =~= v.take(i as int));
        assert(v.take(i + 1).last() == rows@[i as int]@);
        if l < least {
            least = l;
        }
        i = i + 1;
    }
    assert(v.take(rows@.len() as int) =~= v);
    least
}

/// `s` with its first `b` bytes cut off; the cut must land on a character
/// boundary.
fn cut_chars(s: &Vec<char>, b: u128) -> (r: Vec<char>)
    requires
        cut_bytes(s@, b as nat) is Some,
    ensures
        cut_bytes(s@, b as nat) == Some(r@),
{
    let mut left: u128 = b;
    let mut k: usize = 0;
    assert(s@.skip(0) =~= s@);
    while left > 0
        invariant
            k <= s@.len(),
            cut_bytes(s@, b as nat) == cut_bytes(s@.skip(k as int), left as nat),
            cut_bytes(s@.skip(k as int), left as nat) is Some,
        decreases left,
    {
        assert(s@.skip(k as int).len() > 0);
        assert(k < s.len());
        assert(s@.skip(k as int).drop_first() =~= s@.skip(k + 1));
        assert(s@.skip(k as int)[0] == s@[k as int]);
        let w = utf8_width_of(s[k]);
        left = left - w;
        k = k + 1;
    }
    let mut r: Vec<char> = Vec::new();
    let mut i: usize = k;
    while i < s.len()
        invariant
            k <= i <= s@.len(),
            r@ == s@.subrange(k as int, i as int),
        decreases s@.len() - i,
    {
        r.push(s[i]);
        assert(r@ =~= s@.subrange(k as int, i + 1));
        i = i + 1;
    }
    assert(r@ =~= s@.skip(k as int));
    r
}

/// Whether `s` can lose its first `b` bytes at a character boundary.
fn can_cut(s: &Vec<char>, b: u128) -> (ok: bool)
    ensures
        ok == (cut_bytes(s@, b as nat) is Some),
{
    let mut left: u128 = b;
    let mut k: usize = 0;
    assert(s@.skip(0) =~= s@);
    while left > 0
        invariant
            k <= s@.len(),
            cut_bytes(s@, b as nat) == cut_bytes(s@.skip(k as int), left as nat),
        decreases left,
    {
        if k >= s.len() {
            assert(s@.skip(k as int).len() == 0);
            return false;
        }
        assert(s@.skip(k as int).drop_first() =~= s@.skip(k + 1));
        assert(s@.skip(k as int)[0] == s@[k as int]);
        let w = utf8_width_of(s[k]);
        if w > left {
            return false;
        }
        left = left - w;
        k = k + 1;
    }
    true
}

/// Whether every grid row can lose the common indentation at a character
/// boundary.
pub fn rows_dedentable(rows: &Vec<Vec<char>>) -> (ok: bool)
    ensures
        ok == dedentable(views(rows@)),
{
    let ghost v = views(rows@);
    let indent = common_indent_of(rows);
    let mut i: usize = 0;
    while i < rows.len()
        invariant
            v == views(rows@),
            indent == common_indent(v),
            i <= rows@.len(),
            forall|j: int| 0 <= j < i ==> (#[trigger] cut_bytes(v[j], common_indent(v))) is Some,
        decreases rows@.len() - i,
    {
        assert(v[i as int] == rows@[i as int]@);
        if !can_cut(&rows[i], indent) {
            return false;
        }
        i = i + 1;
    }
    true
}

/// The grid rows with their common indentation cut off.
pub fn dedent_rows(rows: &Vec<Vec<char>>) -> (r: Vec<Vec<char>>)
    requires
        dedentable(views(rows@)),
    ensures
        views(r@) == dedent(views(rows@)),
{
    let ghost v = views(rows@);
    let indent = common_indent_of(rows);
    let mut out: Vec<Vec<char>> = Vec::new();
    let mut i: usize = 0;
    while i < rows.len()
        invariant
            v == views(rows@),
            indent == common_indent(v),
            dedentable(v),
            i <= rows@.len(),
            views(out@) == dedent(v).take(i as int),
        decreases rows@.len() - i,
    {
        assert(cut_bytes(v[i as int], common_indent(v)) is Some);
        let t = cut_chars(&rows[i], indent);
        let ghost before = out@;
        out.push(t);
        assert(views(out@) =~= dedent(v).take(i + 1)) by {
            assert(views(out@) =~= views(before).push(t@));
        }
        i = i + 1;
    }
    assert(dedent(v).take(rows@.len() as int) =~= dedent(v));
    out
}

/// The longest row's length in characters.
pub fn widest_row(rows: &Vec<Vec<char>>) -> (n: usize)
    ensures
        n == widest(views(rows@)),
{
    let ghost v = views(rows@);
    let mut best: usize = 0;
    let mut i: usize = 0;
    assert(v.take(0) =~= Seq::<Seq<char>>::empty());
    while i < rows.len()
        invariant
            v == views(rows@),
            i <= rows@.len(),
            best == widest(v.take(i as int)),
        decreases rows@.len() - i,
    {
        assert(v.take(i + 1).drop_last() =~= v.take(i as int));
        assert(v.take(i + 1).last() == rows@[i as int]@);
        if rows[i].len() > best {
            best = rows[i].len();
        }
        i = i + 1;
    }
    assert(v.take(rows@.len() as int) =~= v);
    best
}

} // verus!
