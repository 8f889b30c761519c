//! The textual manifest format: a fixed header line, then one
//! `key,size,timestamp` line per object.
use vstd::prelude::*;
use crate::listing::{ObjectInfo, ObjectView, RawPage, objects_view, page_objects, pages_objects};
use crate::partition::push_char;

verus! {

/// The path of a partition's manifest: `{root}/{partition}.txt`.
pub open spec fn manifest_path_of(root: Seq<char>, partition: Seq<char>) -> Seq<char> {
    root + seq!['/'] + partition + seq!['.', 't', 'x', 't']
}

/// The path of the manifest for `partition` under the directory `root`.
pub fn manifest_path(root: &str, partition: &str) -> (r: String)
    ensures
        r@ == manifest_path_of(root@, partition@),
{
    let mut s = String::from_str(root);
    push_char(&mut s, '/');
    s.append(partition);
    s.append(".txt");
    proof {
        reveal_strlit(".txt");
    }
    assert(s@ =~= manifest_path_of(root@, partition@));
    s
}

/// The decimal digit character for `d < 10`.
pub open spec fn digit_char(d: nat) -> char {
    seq!['0', '1', '2', '3', '4', '5', '6', '7', '8', '9'][d as int]
}

/// `n` in decimal, without leading zeros ("0" for zero).
pub open spec fn decimal(n: nat) -> Seq<char>
    decreases n,
{
    if n < 10 {
        seq![digit_char(n)]
    } else {
        decimal(n / 10).push(digit_char(n % 10))
    }
}

/// The header line's text, without its line break.
pub open spec fn header() -> Seq<char> {
    seq!['k', 'e', 'y', ',', 's', 'i', 'z', 'e', ',', 't', 'i', 'm', 'e', 's', 't', 'a', 'm', 'p']
}

/// One data line's text, without its line break.
pub open spec fn record_line(o: ObjectView) -> Seq<char> {
    o.0 + seq![','] + decimal(o.1) + seq![','] + o.2
}

/// The data lines of `objs`, each followed by a line break, in order.
pub open spec fn record_lines(objs: Seq<ObjectView>) -> Seq<char>
    decreases objs.len(),
{
    if objs.len() == 0 {
        Seq::empty()
    } else {
        record_lines(objs.drop_last()) + record_line(objs.last()) + seq!['\n']
    }
}

/// The full manifest text for `objs`.
pub open spec fn manifest(objs: Seq<ObjectView>) -> Seq<char> {
    header() + seq!['\n'] + record_lines(objs)
}

fn digit(d: usize) -> (c: char)
    requires
        d < 10,
    ensures
        c == digit_char(d as nat),
{
    let c = match d {
        0 => '0',
        1 => '1',
        2 => '2',
        3 => '3',
        4 => '4',
        5 => '5',
        6 => '6',
        7 => '7',
        8 => '8',
        _ => '9',
    };
    c
}

/// Appends `n` in decimal to `s`.
pub fn push_decimal(s: &mut String, n: usize)
    ensures
        final(s)@ == old(s)@ + decimal(n as nat),
    decreases n,
{
    if n >= 10 {
        push_decimal(s, n / 10);
    }
    push_char(s, digit(n % 10));
}

/// The text of one data line of the manifest, without its line break.
pub fn format_record(o: &ObjectInfo) -> (r: String)
    ensures
        r@ == record_line(o@),
{
    let mut s = o.key.clone();
    push_char(&mut s, ',');
    push_decimal(&mut s, o.size);
    push_char(&mut s, ',');
    s.append(o.timestamp.as_str());
    assert(s@ =~= record_line(o@));
    s
}

/// The manifest text for a partition's objects: the header line, then one
/// line per object in the given order, every line ending in a line break.
pub fn render_manifest(objects: &Vec<ObjectInfo>) -> (r: String)
    ensures
        r@ == manifest(objects_view(objects@)),
{
    let mut s = String::from_str("key,size,timestamp\n");
    proof {
        reveal_strlit("key,size,timestamp\n");
        assert(s@ =~= header() + seq!['\n'] + record_lines(Seq::empty()));
    }
    let mut i: usize = 0;
    while i < objects.len()
        invariant
            i <= objects@.len(),
            s@ == header() + seq!['\n'] + record_lines(objects_view(objects@.subrange(0, i as int))),
        decreases objects@.len() - i,
    {
        let line = format_record(&objects[i]);
        let ghost before = s@;
        s.append(line.as_str());
        push_char(&mut s, '\n');
        proof {
            let pre = objects_view(objects@.subrange(0, i as int));
            let now = objects_view(objects@.subrange(0, i + 1));
            assert(now.drop_last() =~= pre);
            assert(now.last() == objects@[i as int]@);
            assert(s@ =~= header() + seq!['\n'] + record_lines(now));
        }
        i = i + 1;
    }
    assert(objects@.subrange(0, objects@.len() as int) =~= objects@);
    s
}

/// What the writer is to do with a partition's objects: `None` when there
/// are none (nothing is written), else the manifest text to write.
pub fn manifest_for(objects: &Vec<ObjectInfo>) -> (r: Option<String>)
    ensures
        r.is_none() <==> objects@.len() == 0,
        r.is_some() ==> r.unwrap()@ == manifest(objects_view(objects@)),
{
    if objects.len() == 0 {
        None
    } else {
        Some(render_manifest(objects))
    }
}

/// The data lines of each page in turn, concatenated in page order.
pub open spec fn pages_lines(pages: Seq<RawPage>) -> Seq<char>
    decreases pages.len(),
{
    if pages.len() == 0 {
        Seq::empty()
    } else {
        pages_lines(pages.drop_last()) + record_lines(page_objects(pages.last()))
    }
}

proof fn lemma_record_lines_concat(a: Seq<ObjectView>, b: Seq<ObjectView>)
    ensures
        record_lines(a + b) == record_lines(a) + record_lines(b),
    decreases b.len(),
{
    if b.len() == 0 {
        assert(a + b =~= a);
        assert(record_lines(b) =~= Seq::empty());
        assert(record_lines(a) + record_lines(b) =~= record_lines(a));
    } else {
        assert((a + b).drop_last() =~= a + b.drop_last());
        assert((a + b).last() == b.last());
        lemma_record_lines_concat(a, b.drop_last());
        assert(record_lines(a + b) =~= record_lines(a) + record_lines(b));
    }
}

proof fn lemma_lines_of_pages(pages: Seq<RawPage>)
    ensures
        record_lines(pages_objects(pages)) == pages_lines(pages),
    decreases pages.len(),
{
    if pages.len() > 0 {
        let prev = pages.drop_last();
        lemma_lines_of_pages(prev);
        lemma_record_lines_concat(pages_objects(prev), page_objects(pages.last()));
    }
}

/// The manifest of a partition listed over several pages holds the header
/// line, then each page's objects in page order, one line each.
pub proof fn lemma_manifest_of_pages(pages: Seq<RawPage>)
    ensures
        manifest(pages_objects(pages)) == header() + seq!['\n'] + pages_lines(pages),
{
    lemma_lines_of_pages(pages);
}

/// Whether `c` is a decimal digit.
pub open spec fn is_digit(c: char) -> bool {
    '0' <= c && c <= '9'
}

/// The value of a digit character.
pub open spec fn digit_value(c: char) -> nat {
    ((c as u32) - 48) as nat
}

/// The value of a string of decimal digits.
pub open spec fn digits_value(s: Seq<char>) -> nat
    decreases s.len(),
{
    if s.len() == 0 {
        0
    } else {
        digits_value(s.drop_last()) * 10 + digit_value(s.last())
    }
}

/// Position of the first `c` in `s`, if any.
pub open spec fn char_index(s: Seq<char>, c: char) -> Option<nat>
    decreases s.len(),
{
    if s.len() == 0 {
        None
    } else if s[0] == c {
        Some(0)
    } else {
        match char_index(s.drop_first(), c) {
            Some(k) => Some(k + 1),
            None => None,
        }
    }
}

/// A size field: one or more digits whose value fits a `usize`.
pub open spec fn valid_size(s: Seq<char>) -> bool {
    s.len() > 0 && (forall|k: int| 0 <= k < s.len() ==> is_digit(#[trigger] s[k])) && digits_value(s)
        <= usize::MAX
}

/// The record a data line stands for: the key runs to the first comma, the
/// size to the next one, and the timestamp is the rest of the line.
pub open spec fn parse_line(line: Seq<char>) -> Option<ObjectView> {
    match char_index(line, ',') {
        None => None,
        Some(a) => {
            let rest = line.subrange(a + 1 as int, line.len() as int);
            match char_index(rest, ',') {
                None => None,
                Some(b) => {
                    let size = rest.subrange(0, b as int);
                    if valid_size(size) {
                        Some((line.subrange(0, a as int), digits_value(size), rest.subrange(b + 1 as int, rest.len() as int)))
                    } else {
                        None
                    }
                },
            }
        },
    }
}

proof fn lemma_char_index(s: Seq<char>, c: char, i: int)
    requires
        0 <= i <= s.len(),
        forall|k: int| 0 <= k < i ==> s[k] != c,
        i < s.len() ==> s[i] == c,
    ensures
        char_index(s, c) == (if i < s.len() { Some(i as nat) } else { None::<nat> }),
    decreases i,
{
    if i > 0 {
        assert(s[0] != c);
        let t = s.drop_first();
        assert forall|k: int| 0 <= k < i - 1 implies t[k] != c by {
            assert(t[k] == s[k + 1]);
        }
        lemma_char_index(t, c, i - 1);
    } else if s.len() > 0 {
        assert(s[0] == c);
    }
}

proof fn lemma_decimal_digits(n: nat)
    ensures
        decimal(n).len() > 0,
        forall|k: int| 0 <= k < decimal(n).len() ==> is_digit(#[trigger] decimal(n)[k]) && decimal(n)[k] != ',',
        digits_value(decimal(n)) == n,
    decreases n,
{
    let digits = seq!['0', '1', '2', '3', '4', '5', '6', '7', '8', '9'];
    assert(digits[0] == '0' && digits[1] == '1' && digits[2] == '2' && digits[3] == '3'
        && digits[4] == '4' && digits[5] == '5' && digits[6] == '6' && digits[7] == '7'
        && digits[8] == '8' && digits[9] == '9');
    if n >= 10 {
        lemma_decimal_digits(n / 10);
        let d = decimal(n);
        assert(d.drop_last() =~= decimal(n / 10));
        assert forall|k: int| 0 <= k < d.len() implies is_digit(#[trigger] d[k]) && d[k] != ',' by {
            if k < d.len() - 1 {
                assert(d[k] == decimal(n / 10)[k]);
            }
        }
        assert(d.last() == digit_char(n % 10));
        assert(digit_value(digit_char(n % 10)) == n % 10);
        vstd::arithmetic::div_mod::lemma_fundamental_div_mod(n as int, 10);
        assert(digits_value(d) == digits_value(decimal(n / 10)) * 10 + n % 10);
    } else {
        assert(digit_value(digit_char(n)) == n);
        assert(decimal(n).drop_last() =~= Seq::<char>::empty());
        assert(digits_value(Seq::<char>::empty()) == 0);
        assert(decimal(n).last() == digit_char(n));
    }
}

/// A data line parses back to the record it was written from, provided the
/// key holds no comma.
pub proof fn lemma_round_trip(o: ObjectView)
    requires
        !o.0.contains(','),
        o.1 <= usize::MAX,
    ensures
        parse_line(record_line(o)) == Some(o),
{
    let line = record_line(o);
    let a = o.0.len() as int;
    lemma_decimal_digits(o.1);
    assert(line[a] == ',');
    assert forall|k: int| 0 <= k < a implies line[k] != ',' by {
        assert(line[k] == o.0[k]);
    }
    lemma_char_index(line, ',', a);
    let rest = line.subrange(a + 1 as int, line.len() as int);
    let dec = decimal(o.1);
    let b = dec.len() as int;
    assert(rest =~= dec + seq![','] + o.2);
    assert(rest[b] == ',');
    assert forall|k: int| 0 <= k < b implies rest[k] != ',' by {
        assert(rest[k] == dec[k]);
    }
    lemma_char_index(rest, ',', b);
    assert(rest.subrange(0, b) =~= dec);
    assert(line.subrange(0, a) =~= o.0);
    assert(rest.subrange(b + 1, rest.len() as int) =~= o.2);
}

/// Reads one data line (without its line break) back into a record; `None`
/// when it lacks two commas or its size field is not a decimal `usize`.
pub fn parse_record(line: &str) -> (r: Option<ObjectInfo>)
    ensures
        r.is_some() == parse_line(line@).is_some(),
        r.is_some() ==> r.unwrap()@ == parse_line(line@).unwrap(),
{
    let len = line.unicode_len();
    let mut a: usize = 0;
    while a < len && line.get_char(a) != ','
        invariant
            len == line@.len(),
            a <= len,
            forall|k: int| 0 <= k < a ==> line@[k] != ',',
        decreases len - a,
    {
        a = a + 1;
    }
    proof {
        lemma_char_index(line@, ',', a as int);
    }
    if a == len {
        return None;
    }
    let ghost rest = line@.subrange(a + 1, len as int);
    let mut b: usize = a + 1;
    let mut value: usize = 0;
    let mut fits = true;
    while b < len && line.get_char(b) != ','
        invariant
            len == line@.len(),
            a < len,
            a + 1 <= b <= len,
            rest == line@.subrange(a + 1, len as int),
            forall|k: int| a + 1 <= k < b ==> line@[k] != ',',
            fits ==> (forall|k: int| a + 1 <= k < b ==> is_digit(#[trigger] line@[k])),
            fits ==> value == digits_value(line@.subrange(a + 1, b as int)),
            !fits ==> !digits_fit(line@.subrange(a + 1, b as int)),
        decreases len - b,
    {
        let c = line.get_char(b);
        let ghost pre = line@.subrange(a + 1, b as int);
        let ghost now = line@.subrange(a + 1, b + 1);
        proof {
            assert(now.drop_last() =~= pre);
            assert(now.last() == c);
        }
        if fits {
            if '0' <= c && c <= '9' {
                let d = (c as u32 - 48) as usize;
                if value <= (usize::MAX - d) / 10 {
                    value = value * 10 + d;
                } else {
                    fits = false;
                    proof {
                        lemma_prefix_too_large(now, value as nat, d as nat);
                    }
                }
            } else {
                fits = false;
                proof {
                    lemma_prefix_not_digit(now);
                }
            }
        } else {
            proof {
                lemma_prefix_extend(pre, c);
            }
        }
        b = b + 1;
    }
    proof {
        lemma_char_index(rest, ',', (b - a - 1) as int);
        assert(line@.subrange(a + 1, b as int) =~= rest.subrange(0, (b - a - 1) as int));
    }
    if b == len || b == a + 1 || !fits {
        return None;
    }
    let key = String::from_str(line.substring_char(0, a));
    let timestamp = String::from_str(line.substring_char(b + 1, len));
    proof {
        assert(rest.subrange((b - a) as int, rest.len() as int) =~= line@.subrange(b + 1, len as int));
    }
    Some(ObjectInfo { key, size: value, timestamp })
}

/// The records of the lines of `s`, each line ended by a line break;
/// `None` if a line is unterminated or does not parse.
pub open spec fn parse_lines(s: Seq<char>) -> Option<Seq<ObjectView>>
    decreases s.len(),
{
    if s.len() == 0 {
        Some(Seq::empty())
    } else {
        match char_index(s, '\n') {
            None => None,
            Some(k) => if k >= s.len() {
                None
            } else {
                match parse_line(s.subrange(0, k as int)) {
                    None => None,
                    Some(o) => match parse_lines(s.subrange(k + 1 as int, s.len() as int)) {
                        None => None,
                        Some(rest) => Some(seq![o] + rest),
                    },
                }
            },
        }
    }
}

/// The records of a manifest text: the header line, then the data lines.
pub open spec fn parse_manifest_text(s: Seq<char>) -> Option<Seq<ObjectView>> {
    if s.len() >= 19 && s.subrange(0, 19) == header() + seq!['\n'] {
        parse_lines(s.subrange(19, s.len() as int))
    } else {
        None
    }
}

/// A record that the manifest format can carry: no comma or line break in
/// its key, no line break in its timestamp.
pub open spec fn writable(o: ObjectView) -> bool {
    !o.0.contains(',') && !o.0.contains('\n') && !o.2.contains('\n') && o.1 <= usize::MAX
}

/// `records` with the parsed remainder appended, if it parsed.
pub open spec fn glue(records: Seq<ObjectView>, rest: Option<Seq<ObjectView>>) -> Option<Seq<ObjectView>> {
    match rest {
        None => None,
        Some(r) => Some(records + r),
    }
}

proof fn lemma_line_has_no_break(o: ObjectView)
    requires
        writable(o),
    ensures
        forall|k: int| 0 <= k < record_line(o).len() ==> record_line(o)[k] != '\n',
{
    lemma_decimal_digits(o.1);
    let line = record_line(o);
    let dec = decimal(o.1);
    let a = o.0.len() as int;
    let b = a + 1 + dec.len();
    assert forall|k: int| 0 <= k < line.len() implies line[k] != '\n' by {
        if k < a {
            assert(line[k] == o.0[k]);
        } else if k == a || k == b {
        } else if k < b {
            assert(line[k] == dec[k - a - 1]);
            assert(is_digit(dec[k - a - 1]));
        } else {
            assert(line[k] == o.2[k - b - 1]);
        }
    }
}

proof fn lemma_lines_round_trip(objs: Seq<ObjectView>)
    requires
        forall|i: int| 0 <= i < objs.len() ==> writable(#[trigger] objs[i]),
    ensures
        parse_lines(record_lines(objs)) == Some(objs),
    decreases objs.len(),
{
    if objs.len() == 0 {
        assert(record_lines(objs) =~= Seq::<char>::empty());
    } else {
        let o = objs[0];
        let tail = objs.drop_first();
        assert(objs =~= seq![o] + tail);
        lemma_record_lines_concat(seq![o], tail);
        assert(seq![o].drop_last() =~= Seq::<ObjectView>::empty());
        assert(record_lines(Seq::<ObjectView>::empty()) =~= Seq::<char>::empty());
        let line = record_line(o);
        assert(record_lines(seq![o]) =~= line + seq!['\n']);
        let s = record_lines(objs);
        let t = record_lines(tail);
        assert(s =~= line + seq!['\n'] + t);
        assert(writable(objs[0]));
        lemma_line_has_no_break(o);
        assert forall|k: int| 0 <= k < line.len() implies s[k] != '\n' by {
            assert(s[k] == line[k]);
        }
        lemma_char_index(s, '\n', line.len() as int);
        assert(s.subrange(0, line.len() as int) =~= line);
        assert(s.subrange(line.len() + 1 as int, s.len() as int) =~= t);
        lemma_round_trip(o);
        assert forall|i: int| 0 <= i < tail.len() implies writable(#[trigger] tail[i]) by {
            assert(tail[i] == objs[i + 1]);
        }
        lemma_lines_round_trip(tail);
        assert(seq![o] + tail =~= objs);
    }
}

/// Reading a written manifest back gives exactly the records it was written
/// from, in the same order, for records that the format can carry.
pub proof fn lemma_manifest_round_trip(objs: Seq<ObjectView>)
    requires
        forall|i: int| 0 <= i < objs.len() ==> writable(#[trigger] objs[i]),
    ensures
        parse_manifest_text(manifest(objs)) == Some(objs),
{
    let m = manifest(objs);
    assert(m.subrange(0, 19) =~= header() + seq!['\n']);
    assert(m.subrange(19, m.len() as int) =~= record_lines(objs));
    lemma_lines_round_trip(objs);
}

/// Reads a manifest text back into its records, in order; `None` unless it
/// starts with the header line and every data line is terminated and parses.
pub fn parse_manifest(text: &str) -> (r: Option<Vec<ObjectInfo>>)
    ensures
        r.is_some() == parse_manifest_text(text@).is_some(),
        r.is_some() ==> objects_view(r.unwrap()@) == parse_manifest_text(text@).unwrap(),
{
    let len = text.unicode_len();
    if len < 19 {
        return None;
    }
    let head = String::from_str(text.substring_char(0, 19));
    let expected = String::from_str("key,size,timestamp\n");
    proof {
        reveal_strlit("key,size,timestamp\n");
        assert(expected@ =~= header() + seq!['\n']);
    }
    if head != expected {
        return None;
    }
    let mut objs: Vec<ObjectInfo> = Vec::new();
    let mut pos: usize = 19;
    assert(objects_view(objs@) =~= Seq::<ObjectView>::empty());
    assert(glue(Seq::empty(), parse_lines(text@.subrange(19, len as int))) =~= parse_lines(text@.subrange(19, len as int)));
    while pos < len
        invariant
            len == text@.len(),
            19 <= pos <= len,
            parse_manifest_text(text@) == glue(objects_view(objs@), parse_lines(text@.subrange(pos as int, len as int))),
        decreases len - pos,
    {
        let mut k: usize = pos;
        while k < len && text.get_char(k) != '\n'
            invariant
                len == text@.len(),
                pos <= k <= len,
                forall|j: int| pos <= j < k ==> text@[j] != '\n',
            decreases len - k,
        {
            k = k + 1;
        }
        let ghost t = text@.subrange(pos as int, len as int);
        proof {
            assert forall|j: int| 0 <= j < k - pos implies t[j] != '\n' by {
                assert(t[j] == text@[pos + j]);
            }
            lemma_char_index(t, '\n', (k - pos) as int);
        }
        if k == len {
            return None;
        }
        let line = text.substring_char(pos, k);
        proof {
            assert(t.subrange(0, (k - pos) as int) =~= line@);
            assert(t.subrange((k - pos) + 1, t.len() as int) =~= text@.subrange(k + 1, len as int));
        }
        match parse_record(line) {
            None => { return None; },
            Some(rec) => {
                let ghost prev = objects_view(objs@);
                objs.push(rec);
                proof {
                    assert(objects_view(objs@) =~= prev.push(rec@));
                    let rest = parse_lines(text@.subrange(k + 1, len as int));
                    if rest.is_some() {
                        assert(prev + (seq![rec@] + rest.unwrap()) =~= prev.push(rec@) + rest.unwrap());
                    }
                }
                pos = k + 1;
            },
        }
    }
    proof {
        assert(text@.subrange(pos as int, len as int) =~= Seq::<char>::empty());
        assert(objects_view(objs@) + Seq::<ObjectView>::empty() =~= objects_view(objs@));
    }
    Some(objs)
}

/// `s` is all digits and its value fits a `usize` (possibly empty).
pub open spec fn digits_fit(s: Seq<char>) -> bool {
    (forall|k: int| 0 <= k < s.len() ==> is_digit(#[trigger] s[k])) && digits_value(s) <= usize::MAX
}

proof fn lemma_prefix_too_large(now: Seq<char>, value: nat, d: nat)
    requires
        now.len() > 0,
        digits_value(now.drop_last()) == value,
        is_digit(now.last()),
        digit_value(now.last()) == d,
        value > (usize::MAX - d) / 10,
        d <= 9,
    ensures
        !digits_fit(now),
{
    assert(value * 10 + d > usize::MAX) by (nonlinear_arith)
        requires value > (usize::MAX - d) / 10, d <= 9;
}

proof fn lemma_prefix_not_digit(now: Seq<char>)
    requires
        now.len() > 0,
        !is_digit(now.last()),
    ensures
        !digits_fit(now),
{
    assert(!is_digit(now[now.len() - 1]));
}

proof fn lemma_prefix_extend(pre: Seq<char>, c: char)
    requires
        !digits_fit(pre),
    ensures
        !digits_fit(pre.push(c)),
{
    let now = pre.push(c);
    assert(now.drop_last() =~= pre);
    if (forall|k: int| 0 <= k < now.len() ==> is_digit(#[trigger] now[k])) {
        assert forall|k: int| 0 <= k < pre.len() implies is_digit(#[trigger] pre[k]) by {
            assert(now[k] == pre[k]);
        }
        assert(digits_value(pre) * 10 + digit_value(c) >= digits_value(pre));
    }
}

} // verus!
