//! The persisted text form of a store and its parser.
//!
//! One memo is one line: its five fields joined by commas, in the fixed
//! order identifier, title, content, creation stamp, update stamp. A store
//! is the lines in store order, each terminated by a newline. Nothing is
//! quoted or escaped, so the form is faithful only for fields free of
//! commas and newlines; parsing rejects any line with fewer than five
//! comma-separated fields.

use vstd::prelude::*;
use vstd::string::StrSliceExecFns;
use vstd::string::StringExecFns;

use crate::memo::Memo;
use crate::memo::MemoView;
use crate::memo::store_view;

verus! {

/// Whether the character `c` occurs in `s`.
pub open spec fn has_char(s: Seq<char>, c: char) -> bool {
    exists|i: int| 0 <= i < s.len() && s[i] == c
}

/// The pieces of `s` between occurrences of `sep`, in order: one piece
/// more than there are separators, each possibly empty.
pub open spec fn split_on(s: Seq<char>, sep: char) -> Seq<Seq<char>>
    decreases s.len(),
{
    if s.len() == 0 {
        seq![Seq::<char>::empty()]
    } else if s[0] == sep {
        seq![Seq::<char>::empty()] + split_on(s.drop_first(), sep)
    } else {
        let rest = split_on(s.drop_first(), sep);
        seq![seq![s[0]] + rest[0]] + rest.drop_first()
    }
}

/// A sequence free of the separator splits into itself alone.
pub proof fn lemma_split_on_no_sep(s: Seq<char>, sep: char)
    requires
        !has_char(s, sep),
    ensures
        split_on(s, sep) == seq![s],
    decreases s.len(),
{
    if s.len() == 0 {
        assert(split_on(s, sep) =~~= seq![s]);
    } else {
        assert(s[0] != sep);
        assert(!has_char(s.drop_first(), sep)) by {
            if has_char(s.drop_first(), sep) {
                let i = choose|i: int|
                    0 <= i < s.drop_first().len() && s.drop_first()[i] == sep;
                assert(s[i + 1] == sep);
            }
        }
        lemma_split_on_no_sep(s.drop_first(), sep);
        assert(seq![s[0]] + s.drop_first() =~= s);
        assert(split_on(s, sep) =~~= seq![s]);
    }
}

/// Splitting walks separators left to right: when `a` is free of the
/// separator, the first piece of `a + sep + b` is `a` and the rest are the
/// pieces of `b`.
pub proof fn lemma_split_on_concat(a: Seq<char>, b: Seq<char>, sep: char)
    requires
        !has_char(a, sep),
    ensures
        split_on(a + seq![sep] + b, sep) == seq![a] + split_on(b, sep),
    decreases a.len(),
{
    let s = a + seq![sep] + b;
    if a.len() == 0 {
        assert(s =~= seq![sep] + b);
        assert(s[0] == sep);
        assert(s.drop_first() =~= b);
        assert(a =~= Seq::<char>::empty());
        assert(split_on(s, sep) =~~= seq![a] + split_on(b, sep));
    } else {
        assert(s[0] == a[0]);
        assert(a[0] != sep);
        assert(!has_char(a.drop_first(), sep)) by {
            if has_char(a.drop_first(), sep) {
                let i = choose|i: int|
                    0 <= i < a.drop_first().len() && a.drop_first()[i] == sep;
                assert(a[i + 1] == sep);
            }
        }
        assert(s.drop_first() =~= a.drop_first() + seq![sep] + b);
        lemma_split_on_concat(a.drop_first(), b, sep);
        let rest = split_on(s.drop_first(), sep);
        assert(rest[0] == a.drop_first());
        assert(rest.drop_first() =~~= split_on(b, sep));
        assert(seq![s[0]] + rest[0] =~= a);
        assert(split_on(s, sep) =~~= seq![a] + split_on(b, sep));
    }
}

/// The character `c` occurs in `a + b` exactly when it occurs in one of
/// the parts.
pub proof fn lemma_has_char_concat(a: Seq<char>, b: Seq<char>, c: char)
    ensures
        has_char(a + b, c) <==> (has_char(a, c) || has_char(b, c)),
{
    if has_char(a + b, c) {
        let i = choose|i: int| 0 <= i < (a + b).len() && (a + b)[i] == c;
        if i < a.len() {
            assert(a[i] == c);
        } else {
            assert(b[i - a.len()] == c);
        }
    }
    if has_char(a, c) {
        let i = choose|i: int| 0 <= i < a.len() && a[i] == c;
        assert((a + b)[i] == c);
    }
    if has_char(b, c) {
        let i = choose|i: int| 0 <= i < b.len() && b[i] == c;
        assert((a + b)[a.len() + i] == c);
    }
}

/// The persisted line of one memo, without its terminating newline: the
/// five fields joined by commas in the fixed field order.
pub open spec fn memo_line(m: MemoView) -> Seq<char> {
    m.id + seq![','] + m.title + seq![','] + m.content + seq![','] + m.created_at + seq![',']
        + m.updated_at
}

/// Whether a field survives the persisted form unharmed: free of the
/// field separator and of the record separator.
pub open spec fn clean_field(s: Seq<char>) -> bool {
    !has_char(s, ',') && !has_char(s, '\n')
}

/// Whether every field of `m` survives the persisted form unharmed.
pub open spec fn clean_memo(m: MemoView) -> bool {
    clean_field(m.id) && clean_field(m.title) && clean_field(m.content) && clean_field(
        m.created_at,
    ) && clean_field(m.updated_at)
}

/// The persisted text of a whole store: one newline-terminated line per
/// memo, in store order.
pub open spec fn render_store(memos: Seq<MemoView>) -> Seq<char>
    decreases memos.len(),
{
    if memos.len() == 0 {
        Seq::<char>::empty()
    } else {
        memo_line(memos[0]) + seq!['\n'] + render_store(memos.drop_first())
    }
}

/// The memo a persisted line stands for: its first five comma-separated
/// fields, positionally. A line with fewer than five fields stands for
/// nothing; fields past the fifth are ignored.
pub open spec fn parse_line(line: Seq<char>) -> Option<MemoView> {
    let fields = split_on(line, ',');
    if fields.len() < 5 {
        None
    } else {
        Some(
            MemoView {
                id: fields[0],
                title: fields[1],
                content: fields[2],
                created_at: fields[3],
                updated_at: fields[4],
            },
        )
    }
}

/// The lines of a text: the pieces between newlines, a final newline
/// terminating the last line rather than opening an empty one. An empty
/// text has no lines.
pub open spec fn text_lines(s: Seq<char>) -> Seq<Seq<char>> {
    if s.len() == 0 {
        Seq::<Seq<char>>::empty()
    } else if s.last() == '\n' {
        split_on(s.drop_last(), '\n')
    } else {
        split_on(s, '\n')
    }
}

/// The memos a sequence of persisted lines stands for, or nothing if some
/// line stands for nothing.
pub open spec fn parse_lines(lines: Seq<Seq<char>>) -> Option<Seq<MemoView>>
    decreases lines.len(),
{
    if lines.len() == 0 {
        Some(Seq::<MemoView>::empty())
    } else {
        match parse_line(lines[0]) {
            None => None,
            Some(m) => match parse_lines(lines.drop_first()) {
                None => None,
                Some(rest) => Some(seq![m] + rest),
            },
        }
    }
}

/// The store a persisted text stands for, or nothing if some line of it
/// is malformed.
pub open spec fn parse_text(s: Seq<char>) -> Option<Seq<MemoView>> {
    parse_lines(text_lines(s))
}

/// Rendering one memo more appends its line and a newline at the end of
/// the text.
pub proof fn lemma_render_push(memos: Seq<MemoView>, m: MemoView)
    ensures
        render_store(memos.push(m)) == render_store(memos) + memo_line(m) + seq!['\n'],
    decreases memos.len(),
{
    if memos.len() == 0 {
        reveal_with_fuel(render_store, 2);
        assert(memos.push(m)[0] == m);
        assert(memos.push(m).drop_first() =~= Seq::<MemoView>::empty());
        assert(render_store(memos.push(m)) =~= render_store(memos) + memo_line(m) + seq!['\n']);
    } else {
        assert(memos.push(m)[0] == memos[0]);
        assert(memos.push(m).drop_first() =~= memos.drop_first().push(m));
        lemma_render_push(memos.drop_first(), m);
        assert(render_store(memos.push(m)) == memo_line(memos[0]) + seq!['\n'] + render_store(
            memos.drop_first().push(m),
        ));
        assert(render_store(memos.push(m)) == memo_line(memos[0]) + seq!['\n'] + (render_store(
            memos.drop_first(),
        ) + memo_line(m) + seq!['\n']));
        assert(render_store(memos) == memo_line(memos[0]) + seq!['\n'] + render_store(
            memos.drop_first(),
        ));
        assert(render_store(memos.push(m)) =~= render_store(memos) + memo_line(m) + seq!['\n']);
    }
}

/// Parsing one line more parses it after the others: the lines so far
/// must stand for a store and the new line for a memo, which joins at the
/// end.
pub proof fn lemma_parse_lines_push(lines: Seq<Seq<char>>, line: Seq<char>)
    ensures
        parse_lines(lines.push(line)) == (match parse_lines(lines) {
            None => None,
            Some(memos) => match parse_line(line) {
                None => None,
                Some(m) => Some(memos.push(m)),
            },
        }),
    decreases lines.len(),
{
    if lines.len() == 0 {
        reveal_with_fuel(parse_lines, 2);
        assert(lines.push(line)[0] == line);
        assert(lines.push(line).drop_first() =~= Seq::<Seq<char>>::empty());
        if parse_line(line) is Some {
            let m = parse_line(line).unwrap();
            assert(seq![m] + Seq::<MemoView>::empty() =~= Seq::<MemoView>::empty().push(m));
        }
    } else {
        assert(lines.push(line)[0] == lines[0]);
        assert(lines.push(line).drop_first() =~= lines.drop_first().push(line));
        lemma_parse_lines_push(lines.drop_first(), line);
        if parse_line(lines[0]) is Some && parse_lines(lines) is Some && parse_line(line)
            is Some {
            let m0 = parse_line(lines[0]).unwrap();
            let rest = parse_lines(lines.drop_first()).unwrap();
            let m = parse_line(line).unwrap();
            assert(seq![m0] + rest.push(m) =~= (seq![m0] + rest).push(m));
        }
    }
}

/// One malformed line spoils the whole text: if any line stands for
/// nothing, the lines together stand for nothing.
pub proof fn lemma_parse_lines_none(lines: Seq<Seq<char>>, k: int)
    requires
        0 <= k < lines.len(),
        parse_line(lines[k]) is None,
    ensures
        parse_lines(lines) is None,
    decreases k,
{
    if k > 0 {
        assert(lines.drop_first()[k - 1] == lines[k]);
        lemma_parse_lines_none(lines.drop_first(), k - 1);
    }
}

/// A line rendered from clean fields carries no newline.
pub proof fn lemma_memo_line_no_newline(m: MemoView)
    requires
        clean_memo(m),
    ensures
        !has_char(memo_line(m), '\n'),
{
    let c = '\n';
    assert(!has_char(seq![','], c)) by {
        if has_char(seq![','], c) {
            let i = choose|i: int| 0 <= i < seq![','].len() && seq![','][i] == c;
            assert(seq![','][0] == ',');
        }
    }
    let s1 = m.id + seq![','];
    let s2 = s1 + m.title;
    let s3 = s2 + seq![','];
    let s4 = s3 + m.content;
    let s5 = s4 + seq![','];
    let s6 = s5 + m.created_at;
    let s7 = s6 + seq![','];
    lemma_has_char_concat(m.id, seq![','], c);
    lemma_has_char_concat(s1, m.title, c);
    lemma_has_char_concat(s2, seq![','], c);
    lemma_has_char_concat(s3, m.content, c);
    lemma_has_char_concat(s4, seq![','], c);
    lemma_has_char_concat(s5, m.created_at, c);
    lemma_has_char_concat(s6, seq![','], c);
    lemma_has_char_concat(s7, m.updated_at, c);
}

/// A line rendered from clean fields parses back to the memo it was
/// rendered from.
pub proof fn lemma_parse_memo_line(m: MemoView)
    requires
        clean_memo(m),
    ensures
        parse_line(memo_line(m)) == Some(m),
{
    let t5 = m.updated_at;
    let t4 = m.created_at + seq![','] + t5;
    let t3 = m.content + seq![','] + t4;
    let t2 = m.title + seq![','] + t3;
    let t1 = m.id + seq![','] + t2;
    assert(t1 =~= memo_line(m));
    lemma_split_on_no_sep(t5, ',');
    lemma_split_on_concat(m.created_at, t5, ',');
    lemma_split_on_concat(m.content, t4, ',');
    lemma_split_on_concat(m.title, t3, ',');
    lemma_split_on_concat(m.id, t2, ',');
    assert(split_on(memo_line(m), ',') =~~= seq![
        m.id,
        m.title,
        m.content,
        m.created_at,
        m.updated_at,
    ]);
}

/// The text of a nonempty store is nonempty and ends with the newline
/// that terminates its last line.
pub proof fn lemma_render_ends_newline(memos: Seq<MemoView>)
    requires
        memos.len() > 0,
    ensures
        render_store(memos).len() > 0,
        render_store(memos).last() == '\n',
    decreases memos.len(),
{
    reveal_with_fuel(render_store, 2);
    if memos.drop_first().len() == 0 {
        assert(render_store(memos) =~= memo_line(memos[0]) + seq!['\n']);
    } else {
        lemma_render_ends_newline(memos.drop_first());
    }
}

/// The lines of a clean store's text are exactly the rendered lines of
/// its memos, in store order.
pub proof fn lemma_text_lines_render(memos: Seq<MemoView>)
    requires
        forall|i: int| 0 <= i < memos.len() ==> clean_memo(#[trigger] memos[i]),
    ensures
        text_lines(render_store(memos)) == memos.map_values(|m: MemoView| memo_line(m)),
    decreases memos.len(),
{
    let text = render_store(memos);
    if memos.len() == 0 {
        assert(text_lines(text) =~~= memos.map_values(|m: MemoView| memo_line(m)));
    } else {
        lemma_render_ends_newline(memos);
        lemma_memo_line_no_newline(memos[0]);
        if memos.len() == 1 {
            reveal_with_fuel(render_store, 2);
            assert(text.drop_last() =~= memo_line(memos[0]));
            lemma_split_on_no_sep(memo_line(memos[0]), '\n');
            assert(text_lines(text) =~~= memos.map_values(|m: MemoView| memo_line(m)));
        } else {
            let rest = memos.drop_first();
            assert(forall|i: int| 0 <= i < rest.len() ==> clean_memo(#[trigger] rest[i]))
                by {
                assert(forall|i: int|
                    0 <= i < rest.len() ==> rest[i] == memos[i + 1] && clean_memo(
                        #[trigger] memos[i + 1],
                    ));
            }
            lemma_render_ends_newline(rest);
            lemma_text_lines_render(rest);
            assert(text.drop_last() =~= memo_line(memos[0]) + seq!['\n'] + render_store(
                rest,
            ).drop_last());
            lemma_split_on_concat(memo_line(memos[0]), render_store(rest).drop_last(), '\n');
            assert(text_lines(text) =~~= seq![memo_line(memos[0])] + rest.map_values(
                |m: MemoView| memo_line(m),
            ));
            assert(text_lines(text) =~~= memos.map_values(|m: MemoView| memo_line(m)));
        }
    }
}

/// The rendered lines of a clean store parse back to exactly its memos.
pub proof fn lemma_parse_lines_render(memos: Seq<MemoView>)
    requires
        forall|i: int| 0 <= i < memos.len() ==> clean_memo(#[trigger] memos[i]),
    ensures
        parse_lines(memos.map_values(|m: MemoView| memo_line(m))) == Some(memos),
    decreases memos.len(),
{
    let lines = memos.map_values(|m: MemoView| memo_line(m));
    if memos.len() == 0 {
        assert(lines =~~= Seq::<Seq<char>>::empty());
        assert(memos =~= Seq::<MemoView>::empty());
    } else {
        let rest = memos.drop_first();
        assert(forall|i: int| 0 <= i < rest.len() ==> clean_memo(#[trigger] rest[i])) by {
            assert(forall|i: int|
                0 <= i < rest.len() ==> rest[i] == memos[i + 1] && clean_memo(
                    #[trigger] memos[i + 1],
                ));
        }
        lemma_parse_memo_line(memos[0]);
        assert(lines[0] == memo_line(memos[0]));
        assert(lines.drop_first() =~~= rest.map_values(|m: MemoView| memo_line(m)));
        lemma_parse_lines_render(rest);
        assert(seq![memos[0]] + rest =~= memos);
    }
}

/// Saving and loading is lossless: the text rendered from a store whose
/// fields are free of commas and newlines parses back to exactly that
/// store, field for field and in the same order.
pub proof fn lemma_save_load_round_trip(memos: Seq<MemoView>)
    requires
        forall|i: int| 0 <= i < memos.len() ==> clean_memo(#[trigger] memos[i]),
    ensures
        parse_text(render_store(memos)) == Some(memos),
{
    lemma_text_lines_render(memos);
    lemma_parse_lines_render(memos);
}

/// A text with a line of fewer than five comma-separated fields does not
/// load: no store is silently truncated to the well-formed lines.
pub proof fn lemma_malformed_text_rejected(text: Seq<char>, k: int)
    requires
        0 <= k < text_lines(text).len(),
        split_on(text_lines(text)[k], ',').len() < 5,
    ensures
        parse_text(text) is None,
{
    lemma_parse_lines_none(text_lines(text), k);
}

/// The pieces of `s` between occurrences of `sep`, as owned strings.
fn split_str(s: &str, sep: char) -> (r: Vec<String>)
    ensures
        r@.map_values(|t: String| t@) == split_on(s@, sep),
{
    let n = s.unicode_len();
    let mut fields: Vec<String> = Vec::new();
    let mut start: usize = 0;
    let mut i: usize = 0;
    proof {
        assert(s@.subrange(0, n as int) =~= s@);
        assert(fields@.map_values(|t: String| t@) + split_on(s@, sep) =~~= split_on(s@, sep));
    }
    while i < n
        invariant
            n == s@.len(),
            start <= i <= n,
            split_on(s@, sep) == fields@.map_values(|t: String| t@) + split_on(
                s@.subrange(start as int, n as int),
                sep,
            ),
            forall|j: int| start <= j < i ==> s@[j] != sep,
        decreases n - i,
    {
        if s.get_char(i) == sep {
            let ghost done = fields@;
            let field = s.substring_char(start, i).to_owned();
            fields.push(field);
            proof {
                let suffix = s@.subrange(start as int, n as int);
                let head = s@.subrange(start as int, i as int);
                let tail = s@.subrange(i as int + 1, n as int);
                assert(suffix =~= head + seq![sep] + tail);
                assert(!has_char(head, sep));
                lemma_split_on_concat(head, tail, sep);
                assert(fields@.map_values(|t: String| t@) =~~= done.map_values(
                    |t: String| t@,
                ) + seq![head]);
                assert(split_on(s@, sep) =~~= fields@.map_values(|t: String| t@) + split_on(
                    tail,
                    sep,
                ));
            }
            start = i + 1;
        }
        i += 1;
    }
    let ghost done = fields@;
    let last = s.substring_char(start, n).to_owned();
    fields.push(last);
    proof {
        let suffix = s@.subrange(start as int, n as int);
        assert(!has_char(suffix, sep));
        lemma_split_on_no_sep(suffix, sep);
        assert(fields@.map_values(|t: String| t@) =~~= done.map_values(|t: String| t@) + seq![
            suffix,
        ]);
        assert(split_on(s@, sep) =~~= fields@.map_values(|t: String| t@));
    }
    fields
}

/// Renders the whole store into its persisted text: one comma-joined,
/// newline-terminated line per memo, in store order.
pub fn save_to_text(memos: &Vec<Memo>) -> (r: String)
    ensures
        r@ == render_store(store_view(memos@)),
{
    let n = memos.len();
    let mut out = String::new();
    let mut k: usize = 0;
    while k < n
        invariant
            n == memos@.len(),
            k <= n,
            out@ == render_store(store_view(memos@.subrange(0, k as int))),
        decreases n - k,
    {
        let ghost text_done = out@;
        let m = &memos[k];
        out.append(m.id.as_str());
        out.append(",");
        out.append(m.title.as_str());
        out.append(",");
        out.append(m.content.as_str());
        out.append(",");
        out.append(m.created_at.as_str());
        out.append(",");
        out.append(m.updated_at.as_str());
        out.append("\n");
        proof {
            reveal_strlit(",");
            reveal_strlit("\n");
            assert(","@ =~= seq![',']);
            assert("\n"@ =~= seq!['\n']);
            let done = store_view(memos@.subrange(0, k as int));
            assert(store_view(memos@.subrange(0, k + 1)) =~= done.push(memos@[k as int]@));
            lemma_render_push(done, memos@[k as int]@);
            assert(out@ =~= text_done + memo_line(memos@[k as int]@) + seq!['\n']);
        }
        k += 1;
    }
    proof {
        assert(memos@.subrange(0, n as int) =~= memos@);
    }
    out
}

/// Parses one persisted line back into a memo: its first five
/// comma-separated fields, positionally. A line with fewer than five
/// fields is rejected.
pub fn parse_memo_line(line: &str) -> (r: Option<Memo>)
    ensures
        match r {
            Some(m) => parse_line(line@) == Some(m@),
            None => parse_line(line@) is None,
        },
{
    let fields = split_str(line, ',');
    if fields.len() < 5 {
        None
    } else {
        let m = Memo {
            id: fields[0].clone(),
            title: fields[1].clone(),
            content: fields[2].clone(),
            created_at: fields[3].clone(),
            updated_at: fields[4].clone(),
        };
        Some(m)
    }
}

/// The lines of a persisted text, as owned strings.
fn split_text_lines(s: &str) -> (r: Vec<String>)
    ensures
        r@.map_values(|t: String| t@) == text_lines(s@),
{
    let n = s.unicode_len();
    if n == 0 {
        let empty: Vec<String> = Vec::new();
        proof {
            assert(empty@.map_values(|t: String| t@) =~= text_lines(s@));
        }
        empty
    } else if s.get_char(n - 1) == '\n' {
        let body = s.substring_char(0, n - 1);
        proof {
            assert(body@ =~= s@.drop_last());
        }
        split_str(body, '\n')
    } else {
        split_str(s, '\n')
    }
}

/// Parses a whole persisted text back into a store, line by line in file
/// order. One malformed line rejects the whole text; an empty text yields
/// an empty store.
pub fn load_from_text(text: &str) -> (r: Option<Vec<Memo>>)
    ensures
        match r {
            Some(memos) => parse_text(text@) == Some(store_view(memos@)),
            None => parse_text(text@) is None,
        },
{
    let lines = split_text_lines(text);
    let n = lines.len();
    let mut memos: Vec<Memo> = Vec::new();
    let mut k: usize = 0;
    proof {
        assert(text_lines(text@).subrange(0, 0) =~= Seq::<Seq<char>>::empty());
        assert(store_view(memos@) =~= Seq::<MemoView>::empty());
    }
    while k < n
        invariant
            n == lines@.len(),
            k <= n,
            lines@.map_values(|t: String| t@) == text_lines(text@),
            parse_lines(text_lines(text@).subrange(0, k as int)) == Some(store_view(memos@)),
        decreases n - k,
    {
        let parsed = parse_memo_line(lines[k].as_str());
        match parsed {
            None => {
                proof {
                    lemma_parse_lines_none(text_lines(text@), k as int);
                }
                return None;
            },
            Some(m) => {
                let ghost done = store_view(memos@);
                memos.push(m);
                proof {
                    let all = text_lines(text@);
                    assert(all.subrange(0, k + 1) =~= all.subrange(0, k as int).push(
                        all[k as int],
                    ));
                    lemma_parse_lines_push(all.subrange(0, k as int), all[k as int]);
                    assert(store_view(memos@) =~= done.push(m@));
                }
            },
        }
        k += 1;
    }
    proof {
        assert(text_lines(text@).subrange(0, n as int) =~= text_lines(text@));
    }
    Some(memos)
}

} // verus!
