//! The files that a finished addlist is written to: their names and what
//! they hold. Writing them is left to the caller.

use crate::aggregate::data::{names_of, Addlist, AddlistConfig};
use crate::text::{decimal, decimal_digits};
use vstd::prelude::*;
use vstd::string::StringExecFns;

verus! {

/// One file to write.
#[derive(Eq, PartialEq, Debug)]
pub struct OutputFile {
    /// Where the file goes.
    pub path: String,
    /// What the file holds.
    pub content: String,
}

/// The lines with a carriage return and a line feed between neighbours.
pub open spec fn join_lines(lines: Seq<Seq<char>>) -> Seq<char>
    decreases lines.len(),
{
    if lines.len() == 0 {
        Seq::empty()
    } else if lines.len() == 1 {
        lines[0]
    } else {
        join_lines(lines.drop_last()) + "\r\n"@ + lines.last()
    }
}

/// The lines in chunks of `size` lines, the last one as long as what is
/// left; no chunk where there is no line.
pub open spec fn chunks(lines: Seq<Seq<char>>, size: int) -> Seq<Seq<Seq<char>>>
    decreases lines.len(),
{
    if lines.len() == 0 || size <= 0 {
        Seq::empty()
    } else if lines.len() <= size {
        seq![lines]
    } else {
        seq![lines.take(size)] + chunks(lines.skip(size), size)
    }
}

/// The name of the one file of an addlist that is not split.
pub open spec fn file_name(path: Seq<char>, name: Seq<char>) -> Seq<char> {
    path + "/"@ + name + ".addlist"@
}

/// The name of the file for the chunk of the given index.
pub open spec fn chunk_name(path: Seq<char>, index: nat, name: Seq<char>) -> Seq<char> {
    path + "/"@ + decimal_digits(index) + "-"@ + name + ".addlist"@
}

/// The files of an addlist as pairs of name and content. Without a chunk
/// size there is one file with all lines. With one there is a file for each
/// chunk, numbered from 0.
pub open spec fn files_spec(
    path: Seq<char>,
    size: Option<usize>,
    name: Seq<char>,
    lines: Seq<Seq<char>>,
) -> Seq<(Seq<char>, Seq<char>)> {
    match size {
        None => seq![(file_name(path, name), join_lines(lines))],
        Some(k) => Seq::new(
            chunks(lines, k as int).len(),
            |c: int| (chunk_name(path, c as nat, name), join_lines(chunks(lines, k as int)[c])),
        ),
    }
}

/// The names and contents that the given files hold.
pub open spec fn files_of(files: Seq<OutputFile>) -> Seq<(Seq<char>, Seq<char>)> {
    Seq::new(files.len(), |i: int| (files[i].path@, files[i].content@))
}

/// The lines from `from` up to `to`, with a carriage return and a line feed
/// between neighbours.
fn joined(lines: &Vec<String>, from: usize, to: usize) -> (r: String)
    requires
        from <= to <= lines.len(),
    ensures
        r@ == join_lines(names_of(lines@).subrange(from as int, to as int)),
{
    let ghost all = names_of(lines@);
    let mut out = String::new();
    let mut i: usize = from;
    while i < to
        invariant
            from <= i <= to <= lines.len(),
            all == names_of(lines@),
            out@ == join_lines(all.subrange(from as int, i as int)),
        decreases to - i,
    {
        proof {
            let upto = all.subrange(from as int, i + 1);
            assert(upto.drop_last() == all.subrange(from as int, i as int));
            assert(upto.last() == lines@[i as int]@);
        }
        if i > from {
            out.append("\r\n");
        }
        out.append(lines[i].as_str());
        i += 1;
    }
    out
}

/// The files that an addlist is written to, by the configured path and
/// chunk size.
pub fn output_files(config: &AddlistConfig, addlist: &Addlist) -> (r: Vec<OutputFile>)
    requires
        config.config.size != Some(0usize),
    ensures
        files_of(r@) == files_spec(
            config.config.path@,
            config.config.size,
            addlist.name@,
            names_of(addlist.list@),
        ),
{
    let ghost lines = names_of(addlist.list@);
    let ghost path = config.config.path@;
    let ghost name = addlist.name@;
    let n = addlist.list.len();
    let mut files: Vec<OutputFile> = Vec::new();
    match config.config.size {
        None => {
            let mut file = config.config.path.clone();
            file.append("/");
            file.append(addlist.name.as_str());
            file.append(".addlist");
            assert(lines.subrange(0, n as int) == lines);
            files.push(OutputFile { path: file, content: joined(&addlist.list, 0, n) });
            assert(files_of(files@) =~= files_spec(path, None, name, lines));
        },
        Some(k) => {
            let mut start: usize = 0;
            assert(lines.skip(0) == lines);
            while start < n
                invariant
                    start <= n,
                    k > 0,
                    n == addlist.list.len(),
                    lines == names_of(addlist.list@),
                    path == config.config.path@,
                    name == addlist.name@,
                    chunks(lines, k as int).len() == files.len() + chunks(
                        lines.skip(start as int),
                        k as int,
                    ).len(),
                    forall|c: int|
                        0 <= c < files.len() ==> (#[trigger] files@[c]).path@ == chunk_name(
                            path,
                            c as nat,
                            name,
                        ) && files@[c].content@ == join_lines(chunks(lines, k as int)[c]),
                    forall|c: int|
                        0 <= c < chunks(lines.skip(start as int), k as int).len() ==> chunks(
                            lines,
                            k as int,
                        )[files.len() + c] == #[trigger] chunks(
                            lines.skip(start as int),
                            k as int,
                        )[c],
                decreases n - start,
            {
                let end: usize = if n - start <= k {
                    n
                } else {
                    start + k
                };
                let ghost rest = lines.skip(start as int);
                let ghost after = lines.skip(end as int);
                proof {
                    if n - start <= k {
                        assert(chunks(rest, k as int) == seq![rest]);
                        assert(rest == lines.subrange(start as int, end as int));
                        assert(after.len() == 0);
                    } else {
                        assert(rest.take(k as int) == lines.subrange(start as int, end as int));
                        assert(rest.skip(k as int) == after);
                        assert(chunks(rest, k as int) == seq![rest.take(k as int)] + chunks(
                            after,
                            k as int,
                        ));
                    }
                    assert(chunks(rest, k as int)[0] == lines.subrange(start as int, end as int));
                    assert forall|c: int| 0 <= c < chunks(after, k as int).len() implies chunks(
                        lines,
                        k as int,
                    )[files.len() + 1 + c] == #[trigger] chunks(after, k as int)[c] by {
                        assert(chunks(rest, k as int)[c + 1] == chunks(after, k as int)[c]);
                    }
                }
                let mut file = config.config.path.clone();
                file.append("/");
                file.append(decimal(files.len()).as_str());
                file.append("-");
                file.append(addlist.name.as_str());
                file.append(".addlist");
                files.push(OutputFile { path: file, content: joined(&addlist.list, start, end) });
                start = end;
            }
            assert(lines.skip(n as int).len() == 0);
            assert(files_of(files@) =~= files_spec(path, Some(k), name, lines));
        },
    }
    files
}

/// How many chunks there are: none for no line, and else as many as it
/// takes to hold all lines, the last chunk not empty.
pub proof fn lemma_chunk_count(lines: Seq<Seq<char>>, size: int)
    requires
        size > 0,
    ensures
        lines.len() == 0 ==> chunks(lines, size).len() == 0,
        lines.len() > 0 ==> (chunks(lines, size).len() - 1) * size < lines.len() <= chunks(
            lines,
            size,
        ).len() * size,
    decreases lines.len(),
{
    if lines.len() > size {
        let rest = lines.skip(size);
        lemma_chunk_count(rest, size);
        let n = chunks(rest, size).len() as int;
        assert(chunks(lines, size).len() == n + 1);
        assert((n + 1 - 1) * size == (n - 1) * size + size) by (nonlinear_arith);
        assert((n + 1) * size == n * size + size) by (nonlinear_arith);
    } else if lines.len() > 0 {
        assert(chunks(lines, size).len() == 1);
        assert((1 - 1) * size == 0) by (nonlinear_arith);
        assert(1 * size == size) by (nonlinear_arith);
    }
}

/// The chunk of index `c` holds the lines from `c * size` on: `size` of
/// them, or as many as are left.
pub proof fn lemma_chunk(lines: Seq<Seq<char>>, size: int, c: int)
    requires
        size > 0,
        0 <= c,
        c * size < lines.len(),
    ensures
        c < chunks(lines, size).len(),
        chunks(lines, size)[c] == lines.subrange(
            c * size,
            if (c + 1) * size <= lines.len() {
                (c + 1) * size
            } else {
                lines.len() as int
            },
        ),
    decreases c,
{
    assert((c + 1) * size == c * size + size) by (nonlinear_arith);
    if c == 0 {
        assert(0 * size == 0) by (nonlinear_arith);
        if lines.len() <= size {
            assert(lines.subrange(0, lines.len() as int) == lines);
        } else {
            assert(lines.take(size) == lines.subrange(0, size));
        }
    } else {
        assert((c - 1) * size + size == c * size) by (nonlinear_arith);
        assert(c * size >= size) by (nonlinear_arith)
            requires
                c >= 1,
                size > 0,
        ;
        let rest = lines.skip(size);
        lemma_chunk(rest, size, c - 1);
        assert(chunks(lines, size) == seq![lines.take(size)] + chunks(rest, size));
        assert(chunks(lines, size)[c] == chunks(rest, size)[c - 1]);
        let from = (c - 1) * size;
        let to = if c * size <= rest.len() {
            c * size
        } else {
            rest.len() as int
        };
        assert(rest.subrange(from, to) == lines.subrange(from + size, to + size));
    }
}

} // verus!
