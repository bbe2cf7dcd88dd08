//! Computing the value of a block string (see `block_spec`).

use vstd::prelude::*;

use crate::block_spec::{
    common_indent, common_indent_upto, dedent, dedent_line, dedented_lines, is_blank,
    is_white_space, join_lines, leading_blank, normalize_newlines, space_prefix_len, split_lines,
    strip_blank_lines, trailing_blank,
};
use crate::text::push_char;

verus! {

/// The model of a list of lines.
pub open spec fn lines_view(v: Seq<Vec<char>>) -> Seq<Seq<char>> {
    v.map_values(|l: Vec<char>| l@)
}

pub(crate) proof fn lemma_blank_prefix(line: Seq<char>)
    ensures
        space_prefix_len(line) <= line.len(),
        space_prefix_len(line) == line.len() <==> is_blank(line),
        forall|i: int| 0 <= i < space_prefix_len(line) ==> is_white_space(#[trigger] line[i]),
        space_prefix_len(line) < line.len() ==> !is_white_space(line[space_prefix_len(line) as int]),
    decreases line.len(),
{
    if line.len() > 0 {
        let t = line.skip(1);
        lemma_blank_prefix(t);
        assert forall|i: int| 0 <= i < space_prefix_len(line) implies is_white_space(
            #[trigger] line[i],
        ) by {
            if i > 0 {
                assert(line[i] == t[i - 1]);
            }
        }
        if is_blank(t) && is_white_space(line[0]) {
            assert forall|i: int| 0 <= i < line.len() implies is_white_space(#[trigger] line[i]) by {
                if i > 0 {
                    assert(line[i] == t[i - 1]);
                }
            }
        }
        if is_blank(line) {
            assert forall|i: int| 0 <= i < t.len() implies is_white_space(#[trigger] t[i]) by {
                assert(t[i] == line[i + 1]);
            }
        }
    }
}

/// Replaces `\r\n` and lone `\r` by `\n`.
fn normalize_exec(raw: &Vec<char>) -> (out: Vec<char>)
    ensures
        out@ == normalize_newlines(raw@),
{
    let mut out: Vec<char> = Vec::new();
    let mut i: usize = 0;
    proof {
        assert(raw@.skip(0) =~= raw@);
        assert(out@ + normalize_newlines(raw@) =~= normalize_newlines(raw@));
    }
    while i < raw.len()
        invariant
            i <= raw.len(),
            normalize_newlines(raw@) == out@ + normalize_newlines(raw@.skip(i as int)),
        decreases raw.len() - i,
    {
        let ghost rest = raw@.skip(i as int);
        let ghost before = out@;
        if raw[i] == '\r' && i + 1 < raw.len() && raw[i + 1] == '\n' {
            proof {
                assert(rest.skip(2) =~= raw@.skip(i + 2));
                assert(rest[0] == raw@[i as int] && rest[1] == raw@[i + 1]);
            }
            out.push('\n');
            i = i + 2;
            proof {
                assert(before + (seq!['\n'] + normalize_newlines(raw@.skip(i as int))) =~= out@
                    + normalize_newlines(raw@.skip(i as int)));
            }
        } else if raw[i] == '\r' {
            proof {
                assert(rest.skip(1) =~= raw@.skip(i + 1));
                assert(rest[0] == raw@[i as int]);
            }
            out.push('\n');
            i = i + 1;
            proof {
                assert(before + (seq!['\n'] + normalize_newlines(raw@.skip(i as int))) =~= out@
                    + normalize_newlines(raw@.skip(i as int)));
            }
        } else {
            let c = raw[i];
            proof {
                assert(rest.skip(1) =~= raw@.skip(i + 1));
                assert(rest[0] == raw@[i as int]);
            }
            out.push(c);
            i = i + 1;
            proof {
                assert(before + (seq![c] + normalize_newlines(raw@.skip(i as int))) =~= out@
                    + normalize_newlines(raw@.skip(i as int)));
            }
        }
    }
    proof {
        assert(raw@.skip(i as int) =~= Seq::<char>::empty());
        assert(out@ + Seq::<char>::empty() =~= out@);
    }
    out
}

/// Splits at every `\n`.
fn split_exec(n: &Vec<char>) -> (lines: Vec<Vec<char>>)
    ensures
        lines_view(lines@) == split_lines(n@),
        lines@.len() >= 1,
{
    let mut lines: Vec<Vec<char>> = Vec::new();
    let mut cur: Vec<char> = Vec::new();
    let mut i: usize = 0;
    proof {
        assert(n@.take(0) =~= Seq::<char>::empty());
        assert(lines_view(lines@).push(cur@) =~= seq![Seq::<char>::empty()]);
    }
    while i < n.len()
        invariant
            i <= n.len(),
            split_lines(n@.take(i as int)) == lines_view(lines@).push(cur@),
        decreases n.len() - i,
    {
        let c = n[i];
        let ghost old_lines = lines_view(lines@);
        let ghost old_cur = cur@;
        proof {
            assert(n@.take(i + 1).drop_last() =~= n@.take(i as int));
            assert(n@.take(i + 1).last() == c);
        }
        if c == '\n' {
            lines.push(cur);
            cur = Vec::new();
            proof {
                assert(lines_view(lines@) =~= old_lines.push(old_cur));
                assert(lines_view(lines@).push(cur@) =~= old_lines.push(old_cur).push(seq![]));
            }
        } else {
            cur.push(c);
            proof {
                assert(old_lines.push(old_cur).update(old_lines.len() as int, old_cur.push(c))
                    =~= old_lines.push(cur@));
            }
        }
        i = i + 1;
    }
    let ghost old_lines = lines_view(lines@);
    let ghost old_cur = cur@;
    lines.push(cur);
    proof {
        assert(n@.take(n@.len() as int) =~= n@);
        assert(lines_view(lines@) =~= old_lines.push(old_cur));
    }
    lines
}

/// Whether `c` is white space (a space or a tab).
fn is_white_space_char(c: char) -> (res: bool)
    ensures
        res == is_white_space(c),
{
    c == ' ' || c == '\t'
}

/// Number of white-space characters that `line` starts with.
fn space_prefix_exec(line: &Vec<char>) -> (res: usize)
    ensures
        res == space_prefix_len(line@),
{
    let mut j: usize = 0;
    proof {
        lemma_blank_prefix(line@);
    }
    while j < line.len() && is_white_space_char(line[j])
        invariant
            j <= space_prefix_len(line@),
            space_prefix_len(line@) <= line@.len(),
            forall|i: int| 0 <= i < space_prefix_len(line@) ==> is_white_space(#[trigger] line@[i]),
            space_prefix_len(line@) < line@.len() ==> !is_white_space(
                line@[space_prefix_len(line@) as int],
            ),
        decreases line.len() - j,
    {
        j = j + 1;
    }
    j
}

/// The elements `v[from..]`.
fn tail_of(v: &Vec<char>, from: usize) -> (res: Vec<char>)
    requires
        from <= v@.len(),
    ensures
        res@ == v@.skip(from as int),
{
    let mut out: Vec<char> = Vec::new();
    let mut i = from;
    while i < v.len()
        invariant
            from <= i <= v@.len(),
            out@ == v@.subrange(from as int, i as int),
        decreases v.len() - i,
    {
        out.push(v[i]);
        proof {
            assert(v@.subrange(from as int, i + 1) =~= v@.subrange(from as int, i as int).push(
                v@[i as int],
            ));
        }
        i = i + 1;
    }
    proof {
        assert(v@.subrange(from as int, v@.len() as int) =~= v@.skip(from as int));
    }
    out
}

/// The common indentation of the lines after the first.
fn common_indent_exec(lines: &Vec<Vec<char>>) -> (res: usize)
    ensures
        res == common_indent(lines_view(lines@)),
{
    let ghost lv = lines_view(lines@);
    let mut common: Option<usize> = None;
    let mut k: usize = 1;
    while k < lines.len()
        invariant
            lv == lines_view(lines@),
            1 <= k,
            k <= lines@.len() || (lines@.len() == 0 && k == 1),
            match common {
                None => common_indent_upto(lv, k as nat) is None,
                Some(c) => common_indent_upto(lv, k as nat) == Some(c as nat),
            },
        decreases lines.len() - k,
    {
        let line = &lines[k];
        let chars = space_prefix_exec(line);
        proof {
            assert(lv[k as int] == lines@[k as int]@);
        }
        if chars < line.len() {
            common = match common {
                None => Some(chars),
                Some(c) => Some(
                    if chars < c {
                        chars
                    } else {
                        c
                    },
                ),
            };
        }
        k = k + 1;
    }
    let r: usize = match common {
        None => 0,
        Some(c) => c,
    };
    proof {
        assert(lv.len() == lines@.len());
        if lines@.len() > 0 {
            assert(k as nat == lv.len());
        }
    }
    r
}

/// The lines of `raw` with the common indentation removed.
fn dedented_lines_exec(raw: &Vec<char>) -> (res: Vec<Vec<char>>)
    ensures
        lines_view(res@) == dedented_lines(raw@),
{
    let normalized = normalize_exec(raw);
    let lines = split_exec(&normalized);
    let ghost lv = lines_view(lines@);
    let common = common_indent_exec(&lines);
    let mut out: Vec<Vec<char>> = Vec::new();
    let mut i: usize = 0;
    while i < lines.len()
        invariant
            lv == lines_view(lines@),
            lv == split_lines(normalize_newlines(raw@)),
            common == common_indent(lv),
            i <= lines@.len(),
            out@.len() == i,
            forall|j: int|
                0 <= j < i ==> (#[trigger] out@[j])@ == dedent_line(lv[j], j, common as nat),
        decreases lines.len() - i,
    {
        let line = &lines[i];
        proof {
            assert(lv[i as int] == lines@[i as int]@);
        }
        if i == 0 {
            let copy = tail_of(line, 0);
            proof {
                assert(line@.skip(0) =~= line@);
            }
            out.push(copy);
        } else {
            let cut = if common < line.len() {
                common
            } else {
                line.len()
            };
            out.push(tail_of(line, cut));
        }
        i = i + 1;
    }
    proof {
        assert(lines_view(out@) =~= dedented_lines(raw@));
    }
    out
}

fn is_blank_exec(line: &Vec<char>) -> (res: bool)
    ensures
        res == is_blank(line@),
{
    let mut j: usize = 0;
    while j < line.len()
        invariant
            j <= line@.len(),
            forall|i: int| 0 <= i < j ==> is_white_space(#[trigger] line@[i]),
        decreases line.len() - j,
    {
        if !is_white_space_char(line[j]) {
            return false;
        }
        j = j + 1;
    }
    true
}

proof fn lemma_leading_blank_step(s: Seq<Seq<char>>, j: int)
    requires
        0 <= j < s.len(),
        is_blank(s[j]),
    ensures
        leading_blank(s.skip(j)) == 1 + leading_blank(s.skip(j + 1)),
{
    assert(s.skip(j)[0] == s[j]);
    assert(s.skip(j).skip(1) =~= s.skip(j + 1));
}

proof fn lemma_trailing_blank_step(s: Seq<Seq<char>>, k: int)
    requires
        0 < k <= s.len(),
        is_blank(s[k - 1]),
    ensures
        trailing_blank(s.take(k)) == 1 + trailing_blank(s.take(k - 1)),
{
    assert(s.take(k).last() == s[k - 1]);
    assert(s.take(k).drop_last() =~= s.take(k - 1));
}

proof fn lemma_join_step(s: Seq<Seq<char>>, k: int)
    requires
        1 <= k < s.len(),
    ensures
        join_lines(s.take(k + 1)) == join_lines(s.take(k)) + seq!['\n'] + s[k],
{
    assert(s.take(k + 1).drop_last() =~= s.take(k));
    assert(s.take(k + 1).last() == s[k]);
}

/// Appends the characters of `v` to `s`.
fn push_all(s: &mut String, v: &Vec<char>)
    ensures
        final(s)@ == old(s)@ + v@,
{
    let mut i: usize = 0;
    while i < v.len()
        invariant
            i <= v@.len(),
            s@ == old(s)@ + v@.take(i as int),
        decreases v.len() - i,
    {
        push_char(s, v[i]);
        proof {
            assert(old(s)@ + v@.take(i + 1) =~= (old(s)@ + v@.take(i as int)).push(v@[i as int]));
        }
        i = i + 1;
    }
    proof {
        assert(v@.take(v@.len() as int) =~= v@);
    }
}

/// The value of a block string whose raw text is `raw`.
pub fn dedent_exec(raw: &Vec<char>) -> (res: String)
    ensures
        res@ == dedent(raw@),
{
    let lines = dedented_lines_exec(raw);
    let ghost lv = lines_view(lines@);
    let n = lines.len();
    // Blank lines at the front.
    let mut lead: usize = 0;
    proof {
        assert(lv.skip(0) =~= lv);
    }
    while lead < n && is_blank_exec(&lines[lead])
        invariant
            lv == lines_view(lines@),
            n == lines@.len(),
            lead <= n,
            leading_blank(lv) == lead + leading_blank(lv.skip(lead as int)),
        decreases n - lead,
    {
        proof {
            assert(lv[lead as int] == lines@[lead as int]@);
            lemma_leading_blank_step(lv, lead as int);
        }
        lead = lead + 1;
    }
    proof {
        let t = lv.skip(lead as int);
        if lead < n {
            assert(t[0] == lv[lead as int]);
            assert(lv[lead as int] == lines@[lead as int]@);
        }
    }
    let ghost front = lv.skip(lead as int);
    // Blank lines at the back of what remains.
    let mut end: usize = n;
    proof {
        assert(front.take(front.len() as int) =~= front);
    }
    while end > lead && is_blank_exec(&lines[end - 1])
        invariant
            lv == lines_view(lines@),
            front == lv.skip(lead as int),
            n == lines@.len(),
            lead <= end <= n,
            trailing_blank(front) == (n - end) + trailing_blank(front.take(end - lead)),
        decreases end - lead,
    {
        proof {
            assert(lv[end - 1] == lines@[end - 1]@);
            assert(front[end - lead - 1] == lv[end - 1]);
            lemma_trailing_blank_step(front, end - lead);
        }
        end = end - 1;
    }
    proof {
        let t = front.take(end - lead);
        if end > lead {
            assert(t.last() == front[end - lead - 1]);
            assert(front[end - lead - 1] == lv[end - 1]);
            assert(lv[end - 1] == lines@[end - 1]@);
        }
        assert(strip_blank_lines(lv) =~= front.take(end - lead));
    }
    let ghost kept = front.take(end - lead);
    // Join with newlines.
    let mut out = String::new();
    let mut k: usize = lead;
    while k < end
        invariant
            lv == lines_view(lines@),
            kept == lv.subrange(lead as int, end as int),
            lead <= k <= end <= n,
            n == lines@.len(),
            out@ == join_lines(kept.take(k - lead)),
        decreases end - k,
    {
        proof {
            assert(lv[k as int] == lines@[k as int]@);
            assert(kept[k - lead] == lv[k as int]);
        }
        if k > lead {
            proof {
                lemma_join_step(kept, k - lead);
            }
            push_char(&mut out, '\n');
            push_all(&mut out, &lines[k]);
            proof {
                assert(out@ =~= join_lines(kept.take(k - lead)) + seq!['\n'] + kept[k - lead]);
            }
        } else {
            push_all(&mut out, &lines[k]);
            proof {
                assert(kept.take(1) =~= seq![kept[0]]);
                assert(kept.take(0) =~= Seq::<Seq<char>>::empty());
                assert(out@ =~= kept[0]);
            }
        }
        k = k + 1;
    }
    proof {
        assert(kept.take(end - lead) =~= kept);
        assert(kept =~= strip_blank_lines(dedented_lines(raw@)));
    }
    out
}

} // verus!
