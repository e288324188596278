use vstd::prelude::*;

verus! {

/// The index of the first line break at or after `i`, or the length of the text.
pub open spec fn line_end(t: Seq<char>, i: int) -> int
    decreases t.len() - i,
{
    if i < 0 || i >= t.len() {
        t.len() as int
    } else if t[i] == '\n' {
        i
    } else {
        line_end(t, i + 1)
    }
}

/// The first line of a text, without its line break.
pub open spec fn first_line_of(t: Seq<char>) -> Seq<char> {
    t.subrange(0, line_end(t, 0))
}

proof fn lemma_line_end_bounds(t: Seq<char>, i: int)
    requires
        0 <= i <= t.len(),
    ensures
        i <= line_end(t, i) <= t.len(),
        forall|k: int| i <= k < line_end(t, i) ==> t[k] != '\n',
        line_end(t, i) < t.len() ==> t[line_end(t, i)] == '\n',
    decreases t.len() - i,
{
    if i < t.len() && t[i] != '\n' {
        lemma_line_end_bounds(t, i + 1);
    }
}

proof fn lemma_line_end_at_break(t: Seq<char>, i: int, e: int)
    requires
        0 <= i <= e < t.len(),
        t[e] == '\n',
        forall|k: int| i <= k < e ==> t[k] != '\n',
    ensures
        line_end(t, i) == e,
    decreases e - i,
{
    if i < e {
        lemma_line_end_at_break(t, i + 1, e);
    }
}

/// Whatever follows the first line break, the credential read from a file
/// is exactly the text before it; a text without a line break is taken
/// whole.
pub proof fn law_first_line_only(line: Seq<char>, rest: Seq<char>)
    requires
        forall|k: int| 0 <= k < line.len() ==> line[k] != '\n',
    ensures
        first_line_of(line + seq!['\n'] + rest) == line,
        first_line_of(line) == line,
{
    lemma_line_end_bounds(line, 0);
    assert(line.subrange(0, line.len() as int) =~= line);
    let t = line + seq!['\n'] + rest;
    assert forall|k: int| 0 <= k < line.len() implies t[k] != '\n' by {
        assert(t[k] == line[k]);
    }
    lemma_line_end_at_break(t, 0, line.len() as int);
    assert(t.subrange(0, line.len() as int) =~= line);
}

/// The first line of `text`, without its line break: what a credential
/// file, descriptor or standard input yields.
pub fn first_line(text: &str) -> (r: String)
    ensures
        r@ == first_line_of(text@),
{
    let n = text.unicode_len();
    let mut i: usize = 0;
    while i < n && text.get_char(i) != '\n'
        invariant
            n == text@.len(),
            i <= n,
            line_end(text@, 0) == line_end(text@, i as int),
        decreases n - i,
    {
        i = i + 1;
    }
    String::from_str(text.substring_char(0, i))
}

} // verus!
