use vstd::prelude::*;

verus! {

/// Appends one character to a `String` (std's `String::push`).
#[verifier::external_body]
pub(crate) fn push_char(out: &mut String, c: char)
    ensures
        final(out)@ == old(out)@.push(c),
{
    out.push(c);
}

/// The characters of `s`, in order.
pub fn chars_of(s: &str) -> (chars: Vec<char>)
    ensures
        chars@ == s@,
{
    let mut chars: Vec<char> = Vec::new();
    for c in it: s.chars()
        invariant
            chars@ == it.seq().take(it.index() as int),
            it.seq() == s@,
    {
        chars.push(c);
    }
    chars
}


/// The markup entity that stands for `c`, or `c` itself where it needs none.
pub open spec fn escape_char(c: char) -> Seq<char> {
    if c == '&' {
        "&amp;"@
    } else if c == '<' {
        "&lt;"@
    } else if c == '>' {
        "&gt;"@
    } else if c == '"' {
        "&quot;"@
    } else if c == '\'' {
        "&apos;"@
    } else {
        seq![c]
    }
}

/// `text` with each character replaced by `escape_char` of it.
pub open spec fn escape_text(text: Seq<char>) -> Seq<char>
    decreases text.len(),
{
    if text.len() == 0 {
        Seq::empty()
    } else {
        escape_text(text.drop_last()) + escape_char(text.last())
    }
}

/// Replaces the five markup-special characters of `text` by their entities.
pub fn escape_markup(text: &str) -> (escaped: String)
    ensures
        escaped@ == escape_text(text@),
{
    let mut escaped = String::new();
    for c in it: text.chars()
        invariant
            it.seq() == text@,
            escaped@ == escape_text(text@.take(it.index() as int)),
    {
        proof {
            assert(text@.take(it.index() + 1).drop_last() == text@.take(it.index() as int));
        }
        if c == '&' {
            escaped.append("&amp;");
        } else if c == '<' {
            escaped.append("&lt;");
        } else if c == '>' {
            escaped.append("&gt;");
        } else if c == '"' {
            escaped.append("&quot;");
        } else if c == '\'' {
            escaped.append("&apos;");
        } else {
            push_char(&mut escaped, c);
        }
    }
    proof {
        assert(text@.take(text@.len() as int) == text@);
    }
    escaped
}


/// A character with Unicode's White_Space property, as `char::is_whitespace` documents it.
pub open spec fn is_whitespace_spec(c: char) -> bool {
    ('\u{9}' <= c && c <= '\u{d}') || c == ' ' || c == '\u{85}' || c == '\u{a0}' || c
        == '\u{1680}' || ('\u{2000}' <= c && c <= '\u{200a}') || c == '\u{2028}' || c
        == '\u{2029}' || c == '\u{202f}' || c == '\u{205f}' || c == '\u{3000}'
}

/// `s` without its leading whitespace.
pub open spec fn trim_start_spec(s: Seq<char>) -> Seq<char>
    decreases s.len(),
{
    if s.len() > 0 && is_whitespace_spec(s[0]) {
        trim_start_spec(s.drop_first())
    } else {
        s
    }
}

/// `s` without its trailing whitespace.
pub open spec fn trim_end_spec(s: Seq<char>) -> Seq<char>
    decreases s.len(),
{
    if s.len() > 0 && is_whitespace_spec(s.last()) {
        trim_end_spec(s.drop_last())
    } else {
        s
    }
}

/// `s` without its leading and trailing whitespace, as `str::trim` gives it.
pub open spec fn trim_spec(s: Seq<char>) -> Seq<char> {
    trim_end_spec(trim_start_spec(s))
}

/// Whether `c` has Unicode's White_Space property.
pub fn is_whitespace(c: char) -> (white: bool)
    ensures
        white == is_whitespace_spec(c),
{
    ('\u{9}' <= c && c <= '\u{d}') || c == ' ' || c == '\u{85}' || c == '\u{a0}' || c
        == '\u{1680}' || ('\u{2000}' <= c && c <= '\u{200a}') || c == '\u{2028}' || c
        == '\u{2029}' || c == '\u{202f}' || c == '\u{205f}' || c == '\u{3000}'
}

/// `text` without its leading and trailing whitespace.
pub fn trim(text: &str) -> (trimmed: String)
    ensures
        trimmed@ == trim_spec(text@),
{
    let chars = chars_of(text);
    let len = chars.len();
    let mut start: usize = 0;
    assert(text@.subrange(0, len as int) == text@);
    while start < len && is_whitespace(chars[start])
        invariant
            start <= len,
            len == chars@.len(),
            chars@ == text@,
            trim_start_spec(text@) == trim_start_spec(text@.subrange(start as int, len as int)),
        decreases len - start,
    {
        proof {
            let rest = text@.subrange(start as int, len as int);
            assert(rest.drop_first() == text@.subrange(start + 1, len as int));
        }
        start = start + 1;
    }
    let ghost head = text@.subrange(start as int, len as int);
    assert(trim_start_spec(head) == head);
    let mut end: usize = len;
    while end > start && is_whitespace(chars[end - 1])
        invariant
            start <= end <= len,
            len == chars@.len(),
            chars@ == text@,
            head == text@.subrange(start as int, len as int),
            trim_end_spec(head) == trim_end_spec(text@.subrange(start as int, end as int)),
        decreases end,
    {
        proof {
            let rest = text@.subrange(start as int, end as int);
            assert(rest.drop_last() == text@.subrange(start as int, end - 1));
        }
        end = end - 1;
    }
    let ghost kept = text@.subrange(start as int, end as int);
    assert(trim_end_spec(kept) == kept);
    let piece = text.substring_char(start, end);
    String::from_str(piece)
}

proof fn lemma_trim_end_is_prefix(s: Seq<char>)
    ensures
        trim_end_spec(s).len() <= s.len(),
        trim_end_spec(s) == s.take(trim_end_spec(s).len() as int),
    decreases s.len(),
{
    if s.len() > 0 && is_whitespace_spec(s.last()) {
        lemma_trim_end_is_prefix(s.drop_last());
        let t = trim_end_spec(s.drop_last());
        assert(s.drop_last().take(t.len() as int) == s.take(t.len() as int));
    } else {
        assert(s.take(s.len() as int) == s);
    }
}

proof fn lemma_trim_start_edge(s: Seq<char>)
    ensures
        trim_start_spec(s).len() > 0 ==> !is_whitespace_spec(trim_start_spec(s)[0]),
    decreases s.len(),
{
    if s.len() > 0 && is_whitespace_spec(s[0]) {
        lemma_trim_start_edge(s.drop_first());
    }
}

proof fn lemma_trim_end_edge(s: Seq<char>)
    ensures
        trim_end_spec(s).len() > 0 ==> !is_whitespace_spec(trim_end_spec(s).last()),
    decreases s.len(),
{
    if s.len() > 0 && is_whitespace_spec(s.last()) {
        lemma_trim_end_edge(s.drop_last());
    }
}

/// What trimming keeps neither starts nor ends with whitespace.
pub proof fn lemma_trim_edges(s: Seq<char>)
    ensures
        trim_spec(s).len() > 0 ==> !is_whitespace_spec(trim_spec(s)[0]) && !is_whitespace_spec(
            trim_spec(s).last(),
        ),
{
    let t = trim_start_spec(s);
    lemma_trim_start_edge(s);
    lemma_trim_end_edge(t);
    lemma_trim_end_is_prefix(t);
    if trim_spec(s).len() > 0 {
        assert(trim_spec(s)[0] == t[0]);
    }
}

/// Trimming twice is trimming once.
pub proof fn lemma_trim_idempotent(s: Seq<char>)
    ensures
        trim_spec(trim_spec(s)) == trim_spec(s),
{
    let t = trim_spec(s);
    lemma_trim_edges(s);
    assert(trim_start_spec(t) == t);
    assert(trim_end_spec(t) == t);
}


/// Whether `text` begins with `prefix`.
pub fn has_prefix(text: &str, prefix: &str) -> (begins: bool)
    ensures
        begins == prefix@.is_prefix_of(text@),
{
    let t = chars_of(text);
    let p = chars_of(prefix);
    if p.len() > t.len() {
        return false;
    }
    let mut i: usize = 0;
    while i < p.len()
        invariant
            i <= p@.len() <= t@.len(),
            t@ == text@,
            p@ == prefix@,
            p@.take(i as int) == t@.take(i as int),
        decreases p@.len() - i,
    {
        if p[i] != t[i] {
            assert(t@.subrange(0, p@.len() as int)[i as int] == t@[i as int]);
            return false;
        }
        assert(p@.take(i + 1) == t@.take(i + 1));
        i = i + 1;
    }
    assert(p@ == p@.take(p@.len() as int));
    true
}


/// A character that Pango would read as markup syntax.
pub open spec fn is_markup_char(c: char) -> bool {
    c == '<' || c == '>' || c == '"' || c == '\''
}

proof fn lemma_escape_char_inert(c: char)
    ensures
        forall|i: int| 0 <= i < escape_char(c).len() ==> !is_markup_char(#[trigger] escape_char(c)[i]),
{
    reveal_strlit("&amp;");
    reveal_strlit("&lt;");
    reveal_strlit("&gt;");
    reveal_strlit("&quot;");
    reveal_strlit("&apos;");
}

/// Escaped text holds no markup syntax: no `<`, `>`, `"` or `'` survives.
pub proof fn lemma_escape_inert(text: Seq<char>)
    ensures
        forall|i: int|
            0 <= i < escape_text(text).len() ==> !is_markup_char(#[trigger] escape_text(text)[i]),
    decreases text.len(),
{
    if text.len() > 0 {
        lemma_escape_inert(text.drop_last());
        lemma_escape_char_inert(text.last());
        let head = escape_text(text.drop_last());
        let tail = escape_char(text.last());
        assert forall|i: int| 0 <= i < escape_text(text).len() implies !is_markup_char(
            #[trigger] escape_text(text)[i],
        ) by {
            if i < head.len() {
                assert(escape_text(text)[i] == head[i]);
            } else {
                assert(escape_text(text)[i] == tail[i - head.len()]);
            }
        }
    }
}

/// Text without `&` or markup syntax is left as it is.
pub proof fn lemma_escape_plain_text(text: Seq<char>)
    requires
        forall|i: int| 0 <= i < text.len() ==> #[trigger] text[i] != '&' && !is_markup_char(text[i]),
    ensures
        escape_text(text) == text,
    decreases text.len(),
{
    if text.len() > 0 {
        lemma_escape_plain_text(text.drop_last());
        assert(text.drop_last().push(text.last()) == text);
    }
}

/// The decimal digit character for `d < 10`.
pub open spec fn digit_char(d: nat) -> char {
    ((d + 48) as u8) as char
}

/// The decimal representation of `n`, without leading zeros.
pub open spec fn decimal(n: nat) -> Seq<char>
    decreases n,
{
    if n < 10 {
        seq![digit_char(n)]
    } else {
        decimal(n / 10).push(digit_char(n % 10))
    }
}

/// Appends the decimal representation of `n`.
pub(crate) fn push_decimal(output: &mut String, n: u64)
    ensures
        final(output)@ == old(output)@ + decimal(n as nat),
    decreases n,
{
    if n >= 10 {
        push_decimal(output, n / 10);
    }
    let d: u8 = (n % 10) as u8;
    push_char(output, (d + 48) as char);
    proof {
        if n >= 10 {
            assert(decimal(n as nat) == decimal((n / 10) as nat).push(digit_char((n % 10) as nat)));
        }
    }
}


/// A decimal representation has at least one digit.
pub proof fn lemma_decimal_nonempty(n: nat)
    ensures
        decimal(n).len() > 0,
    decreases n,
{
    if n >= 10 {
        lemma_decimal_nonempty(n / 10);
    }
}


proof fn lemma_trim_start_index(s: Seq<char>) -> (start: int)
    ensures
        0 <= start <= s.len(),
        trim_start_spec(s) == s.subrange(start, s.len() as int),
        forall|k: int| 0 <= k < start ==> is_whitespace_spec(#[trigger] s[k]),
    decreases s.len(),
{
    if s.len() > 0 && is_whitespace_spec(s[0]) {
        let rest = lemma_trim_start_index(s.drop_first());
        assert(s.drop_first().subrange(rest, s.drop_first().len() as int) == s.subrange(
            rest + 1,
            s.len() as int,
        ));
        assert forall|k: int| 0 <= k < rest + 1 implies is_whitespace_spec(#[trigger] s[k]) by {
            if k > 0 {
                assert(s[k] == s.drop_first()[k - 1]);
            }
        }
        rest + 1
    } else {
        assert(s.subrange(0, s.len() as int) == s);
        0
    }
}

proof fn lemma_trim_end_index(s: Seq<char>) -> (end: int)
    ensures
        0 <= end <= s.len(),
        trim_end_spec(s) == s.subrange(0, end),
        forall|k: int| end <= k < s.len() ==> is_whitespace_spec(#[trigger] s[k]),
    decreases s.len(),
{
    if s.len() > 0 && is_whitespace_spec(s.last()) {
        let end = lemma_trim_end_index(s.drop_last());
        assert(s.drop_last().subrange(0, end) == s.subrange(0, end));
        assert forall|k: int| end <= k < s.len() implies is_whitespace_spec(#[trigger] s[k]) by {
            if k < s.len() - 1 {
                assert(s[k] == s.drop_last()[k]);
            }
        }
        end
    } else {
        assert(s.subrange(0, s.len() as int) == s);
        s.len() as int
    }
}

/// Trimming keeps one contiguous piece of the text and removes only whitespace
/// before and after it.
pub proof fn lemma_trim_removes_only_edge_whitespace(s: Seq<char>)
    ensures
        exists|start: int, end: int|
            {
                &&& 0 <= start <= end <= s.len()
                &&& trim_spec(s) == s.subrange(start, end)
                &&& forall|k: int| 0 <= k < start ==> is_whitespace_spec(#[trigger] s[k])
                &&& forall|k: int| end <= k < s.len() ==> is_whitespace_spec(#[trigger] s[k])
            },
{
    let start = lemma_trim_start_index(s);
    let t = trim_start_spec(s);
    let end = lemma_trim_end_index(t);
    assert(t.subrange(0, end) == s.subrange(start, start + end));
    assert forall|k: int| start + end <= k < s.len() implies is_whitespace_spec(#[trigger] s[k]) by {
        assert(s[k] == t[k - start]);
    }
    assert({
        &&& 0 <= start <= start + end <= s.len()
        &&& trim_spec(s) == s.subrange(start, start + end)
        &&& forall|k: int| 0 <= k < start ==> is_whitespace_spec(#[trigger] s[k])
        &&& forall|k: int| start + end <= k < s.len() ==> is_whitespace_spec(#[trigger] s[k])
    });
}

} // verus!
