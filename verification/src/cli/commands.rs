//! What the subcommands decide before and after they touch any file.
use crate::cli::format::{decimal, push_decimal};
use crate::cli::pages::{page_ranges_spec, parse_page_ranges};
use crate::error::Error;
use crate::text::{owned_text, trim_seq, trim_text};
use vstd::prelude::*;

verus! {

/// The pages a subcommand works on: those named by `--pages`, or else every
/// page `0..page_count`. A bad `--pages` argument is an invalid operation
/// whose message is the parse error.
pub fn resolve_pages(pages_arg: Option<&str>, page_count: usize) -> (r: Result<Vec<usize>, Error>)
    ensures
        match pages_arg {
            Some(a) => match (page_ranges_spec(a@), r) {
                (Ok(q), Ok(v)) => v@ == q,
                (Err(e), Err(Error::InvalidOperation(m))) => m@ == e,
                _ => false,
            },
            None => r matches Ok(v) && v@ == Seq::new(page_count as nat, |i: int| i as usize),
        },
{
    match pages_arg {
        Some(ranges) => match parse_page_ranges(ranges) {
            Ok(v) => Ok(v),
            Err(e) => Err(Error::InvalidOperation(e)),
        },
        None => {
            let mut v: Vec<usize> = Vec::new();
            let mut i: usize = 0;
            while i < page_count
                invariant
                    i <= page_count,
                    v@ == Seq::new(i as nat, |k: int| k as usize),
                decreases page_count - i,
            {
                v.push(i);
                proof {
                    assert(v@ =~= Seq::new((i + 1) as nat, |k: int| k as usize));
                }
                i = i + 1;
            }
            Ok(v)
        },
    }
}

/// The smallest element of a non-empty sequence.
pub open spec fn seq_min(s: Seq<usize>) -> usize
    decreases s.len(),
{
    if s.len() <= 1 {
        s[0]
    } else {
        let m = seq_min(s.drop_last());
        if s.last() < m { s.last() } else { m }
    }
}

/// The largest element of a non-empty sequence.
pub open spec fn seq_max(s: Seq<usize>) -> usize
    decreases s.len(),
{
    if s.len() <= 1 {
        s[0]
    } else {
        let m = seq_max(s.drop_last());
        if s.last() > m { s.last() } else { m }
    }
}

/// The page span a search covers: with `--pages`, from the smallest to the
/// largest page named; without it, the whole document (`None`).
pub fn search_page_range(pages: Option<&str>, page_count: usize) -> (r: Result<Option<(usize, usize)>, Error>)
    ensures
        match pages {
            Some(a) => match (page_ranges_spec(a@), r) {
                (Ok(q), Ok(Some((lo, hi)))) => q.len() > 0 && lo == seq_min(q) && hi == seq_max(q),
                (Err(e), Err(Error::InvalidOperation(m))) => m@ == e,
                _ => false,
            },
            None => r matches Ok(None),
        },
{
    match pages {
        Some(_) => {
            let indices = resolve_pages(pages, page_count)?;
            let n = indices.len();
            let mut lo = indices[0];
            let mut hi = indices[0];
            let mut i: usize = 1;
            while i < n
                invariant
                    n == indices@.len(),
                    1 <= i <= n,
                    lo == seq_min(indices@.take(i as int)),
                    hi == seq_max(indices@.take(i as int)),
                decreases n - i,
            {
                proof {
                    assert(indices@.take(i + 1).drop_last() =~= indices@.take(i as int));
                }
                if indices[i] < lo {
                    lo = indices[i];
                }
                if indices[i] > hi {
                    hi = indices[i];
                }
                i = i + 1;
            }
            proof {
                assert(indices@.take(n as int) =~= indices@);
            }
            Ok(Some((lo, hi)))
        },
        None => Ok(None),
    }
}

/// Pages to delete, last first, so that only page `keep` of `page_count` remains.
pub open spec fn removal_order(page_count: nat, keep: usize) -> Seq<usize>
    decreases page_count,
{
    if page_count == 0 {
        seq![]
    } else {
        let i = (page_count - 1) as usize;
        (if i != keep { seq![i] } else { seq![] }) + removal_order((page_count - 1) as nat, keep)
    }
}

/// The pages to remove, from the last to the first, to keep only page `keep`.
pub fn pages_to_remove(page_count: usize, keep: usize) -> (r: Vec<usize>)
    ensures
        r@ == removal_order(page_count as nat, keep),
{
    let mut r: Vec<usize> = Vec::new();
    let mut i: usize = page_count;
    while i > 0
        invariant
            i <= page_count,
            r@ + removal_order(i as nat, keep) == removal_order(page_count as nat, keep),
        decreases i,
    {
        let ghost before = r@;
        if i - 1 != keep {
            r.push(i - 1);
        }
        proof {
            let tail = removal_order((i - 1) as nat, keep);
            if (i - 1) as usize != keep {
                assert(before + removal_order(i as nat, keep) =~= r@ + tail);
            } else {
                assert(before + removal_order(i as nat, keep) =~= r@ + tail);
            }
        }
        i = i - 1;
    }
    proof {
        assert(r@ + removal_order(0, keep) =~= r@);
    }
    r
}

/// Default name of a compressed copy: `{stem}_compressed.{ext}`.
pub fn compressed_file_name(stem: &str, ext: &str) -> (r: String)
    ensures
        r@ == stem@ + "_compressed."@ + ext@,
{
    let mut r = owned_text(stem);
    r.append("_compressed.");
    r.append(ext);
    r
}

/// Name of the file that holds page `page_idx` (0-based) of a split:
/// `{stem}_page_{n}.pdf` with the 1-based page number `n`.
pub fn split_file_name(stem: &str, page_idx: usize) -> (r: String)
    requires
        page_idx < usize::MAX,
    ensures
        r@ == stem@ + "_page_"@ + decimal((page_idx + 1) as nat) + ".pdf"@,
{
    let mut r = owned_text(stem);
    r.append("_page_");
    push_decimal(&mut r, page_idx + 1);
    r.append(".pdf");
    r
}

/// Prefix of the image files of page `page_idx` (0-based): `{stem}_p{n}`
/// with the 1-based page number `n`.
pub fn image_file_prefix(stem: &str, page_idx: usize) -> (r: String)
    requires
        page_idx < usize::MAX,
    ensures
        r@ == stem@ + "_p"@ + decimal((page_idx + 1) as nat),
{
    let mut r = owned_text(stem);
    r.append("_p");
    push_decimal(&mut r, page_idx + 1);
    r
}

/// A merge needs at least two input files.
pub fn check_merge_inputs(file_count: usize) -> (r: Result<(), Error>)
    ensures
        file_count >= 2 ==> r is Ok,
        file_count < 2 ==> (r matches Err(Error::InvalidOperation(m)) && m@
            == "Merge requires at least 2 PDF files"@),
{
    if file_count < 2 {
        return Err(Error::InvalidOperation(owned_text("Merge requires at least 2 PDF files")));
    }
    Ok(())
}

/// The file named by the first line piped to standard input, trimmed.
pub fn piped_input_path(first_line: Option<&str>) -> (r: Result<String, Error>)
    ensures
        match first_line {
            Some(line) => if trim_seq(line@).len() == 0 {
                r matches Err(Error::InvalidOperation(m)) && m@ == "No file path provided on stdin"@
            } else {
                r matches Ok(p) && p@ == trim_seq(line@)
            },
            None => r matches Err(Error::InvalidOperation(m)) && m@ == "No input received on stdin"@,
        },
{
    match first_line {
        Some(line) => {
            let path = trim_text(line);
            if path.as_str().unicode_len() == 0 {
                return Err(Error::InvalidOperation(owned_text("No file path provided on stdin")));
            }
            Ok(path)
        },
        None => Err(Error::InvalidOperation(owned_text("No input received on stdin"))),
    }
}

} // verus!
