use vstd::prelude::*;

verus! {

/// Permission bits given to every file read from an archive.
pub const ARCHIVE_FILE_PERMISSION: u32 = 0o744;

/// Number of banner lines that come before the table in 7-Zip's listing.
pub const LISTING_HEADER_LINES: usize = 11;

/// Why a 7-Zip listing could not be read.
#[derive(Clone, Copy, Debug, PartialEq, Eq, Structural)]
pub enum ListingError {
    /// No dashed ruler line after the banner.
    NoRuler,
    /// The ruler has fewer than four column gaps.
    BadColumns,
    /// A file line is too short or its size is not a decimal number.
    BadLine,
}

/// One file of an archive listing: its name (bytes of the listing) and size.
#[derive(Clone, Debug)]
pub struct ArchiveEntry {
    pub name: Vec<u8>,
    pub size: u64,
}

/// The lines of `s`, split at every newline byte; text after the last
/// newline (possibly empty) is the last line.
pub open spec fn split_lines(s: Seq<u8>) -> Seq<Seq<u8>>
    decreases s.len(),
{
    if s.len() == 0 {
        seq![seq![]]
    } else {
        let p = split_lines(s.drop_last());
        if s.last() == 10u8 {
            p.push(seq![])
        } else {
            p.update(p.len() - 1, p.last().push(s.last()))
        }
    }
}

pub open spec fn starts_dash(line: Seq<u8>) -> bool {
    line.len() > 0 && line[0] == 45u8
}

/// The lines after the banner.
pub open spec fn table_lines(out: Seq<u8>) -> Seq<Seq<u8>> {
    let ls = split_lines(out);
    if ls.len() <= LISTING_HEADER_LINES {
        seq![]
    } else {
        ls.subrange(LISTING_HEADER_LINES as int, ls.len() as int)
    }
}

/// `r` is the first line of `body` that starts with a dash.
pub open spec fn first_dash(body: Seq<Seq<u8>>, r: int) -> bool {
    0 <= r < body.len() && starts_dash(body[r]) && forall|q: int|
        0 <= q < r ==> !starts_dash(#[trigger] body[q])
}

/// The positions of the spaces of a line, in order.
pub open spec fn spaces(line: Seq<u8>) -> Seq<int>
    decreases line.len(),
{
    if line.len() == 0 {
        seq![]
    } else if line.last() == 32u8 {
        spaces(line.drop_last()).push(line.len() - 1)
    } else {
        spaces(line.drop_last())
    }
}

pub open spec fn is_space(b: u8) -> bool {
    b == 32u8 || b == 9u8 || b == 10u8 || b == 12u8 || b == 13u8
}

pub open spec fn trim_start(s: Seq<u8>) -> Seq<u8>
    decreases s.len(),
{
    if s.len() > 0 && is_space(s[0]) {
        trim_start(s.drop_first())
    } else {
        s
    }
}

pub open spec fn trim_end(s: Seq<u8>) -> Seq<u8>
    decreases s.len(),
{
    if s.len() > 0 && is_space(s.last()) {
        trim_end(s.drop_last())
    } else {
        s
    }
}

/// `s` without leading or trailing ASCII white space.
pub open spec fn trim(s: Seq<u8>) -> Seq<u8> {
    trim_end(trim_start(s))
}

pub open spec fn is_digit(b: u8) -> bool {
    48u8 <= b <= 57u8
}

/// The value of a string of decimal digits.
pub open spec fn digits_value(s: Seq<u8>) -> int
    decreases s.len(),
{
    if s.len() == 0 {
        0
    } else {
        digits_value(s.drop_last()) * 10 + (s.last() - 48u8)
    }
}

/// The digits of a decimal number, after an optional plus sign.
pub open spec fn unsigned_digits(s: Seq<u8>) -> Seq<u8> {
    if s.len() > 0 && s[0] == 43u8 {
        s.drop_first()
    } else {
        s
    }
}

/// `s` is a decimal number (optionally with a plus sign) that fits in a u64.
pub open spec fn is_u64_text(s: Seq<u8>) -> bool {
    let d = unsigned_digits(s);
    &&& d.len() > 0
    &&& forall|j: int| 0 <= j < d.len() ==> is_digit(#[trigger] d[j])
    &&& digits_value(d) <= u64::MAX
}

/// The column starts that the ruler gives: one past each of its first four
/// spaces (attributes, size, compressed size, name).
pub open spec fn column(ruler: Seq<u8>, k: int) -> int {
    spaces(ruler)[k] + 1
}

/// A file line, read with the ruler's columns.
pub open spec fn line_ok(line: Seq<u8>, ruler: Seq<u8>) -> bool {
    &&& line.len() >= column(ruler, 3)
    &&& is_u64_text(trim(line.subrange(column(ruler, 1), column(ruler, 2))))
}

pub open spec fn line_name(line: Seq<u8>, ruler: Seq<u8>) -> Seq<u8> {
    trim(line.subrange(column(ruler, 3), line.len() as int))
}

pub open spec fn line_size(line: Seq<u8>, ruler: Seq<u8>) -> int {
    digits_value(unsigned_digits(trim(line.subrange(column(ruler, 1), column(ruler, 2)))))
}

/// The file lines: from just after the ruler at `r` up to the next line that
/// starts with a dash, or to the end.
pub open spec fn file_lines_end(body: Seq<Seq<u8>>, r: int, e: int) -> bool {
    &&& r < e <= body.len()
    &&& e < body.len() ==> starts_dash(body[e])
    &&& forall|q: int| r < q < e ==> !starts_dash(#[trigger] body[q])
}

pub open spec fn lines_view(v: Seq<Vec<u8>>) -> Seq<Seq<u8>> {
    v.map_values(|l: Vec<u8>| l@)
}

fn split_into_lines(out: &Vec<u8>) -> (r: Vec<Vec<u8>>)
    ensures
        lines_view(r@) == split_lines(out@),
{
    let mut lines: Vec<Vec<u8>> = Vec::new();
    let mut cur: Vec<u8> = Vec::new();
    let mut i: usize = 0;
    proof {
        assert(out@.take(0) =~= Seq::<u8>::empty());
        assert(lines_view(lines@).push(cur@) =~= seq![seq![]]);
    }
    while i < out.len()
        invariant
            0 <= i <= out.len(),
            lines_view(lines@).push(cur@) == split_lines(out@.take(i as int)),
        decreases out.len() - i,
    {
        let b = out[i];
        let ghost before = lines_view(lines@).push(cur@);
        proof {
            assert(out@.take(i + 1).drop_last() =~= out@.take(i as int));
        }
        if b == 10u8 {
            let mut done: Vec<u8> = Vec::new();
            std::mem::swap(&mut cur, &mut done);
            lines.push(done);
            proof {
                assert(lines_view(lines@).push(cur@) =~= before.push(seq![]));
            }
        } else {
            cur.push(b);
            proof {
                assert(lines_view(lines@).push(cur@) =~= before.update(
                    before.len() - 1,
                    before.last().push(b),
                ));
            }
        }
        i = i + 1;
    }
    proof {
        assert(out@.take(i as int) =~= out@);
    }
    lines.push(cur);
    proof {
        assert(lines_view(lines@) =~= split_lines(out@));
    }
    lines
}

fn is_space_byte(b: u8) -> (r: bool)
    ensures
        r == is_space(b),
{
    b == 32u8 || b == 9u8 || b == 10u8 || b == 12u8 || b == 13u8
}

fn starts_with_dash(line: &Vec<u8>) -> (r: bool)
    ensures
        r == starts_dash(line@),
{
    line.len() > 0 && line[0] == 45u8
}

/// The bounds of `line[lo..hi]` without its leading and trailing white space.
fn trimmed(line: &Vec<u8>, lo: usize, hi: usize) -> (r: (usize, usize))
    requires
        lo <= hi <= line.len(),
    ensures
        lo <= r.0 <= r.1 <= hi,
        line@.subrange(r.0 as int, r.1 as int) == trim(line@.subrange(lo as int, hi as int)),
{
    let mut a = lo;
    while a < hi && is_space_byte(line[a])
        invariant
            lo <= a <= hi <= line.len(),
            trim_start(line@.subrange(lo as int, hi as int)) == trim_start(
                line@.subrange(a as int, hi as int),
            ),
        decreases hi - a,
    {
        proof {
            assert(line@.subrange(a as int, hi as int).drop_first() =~= line@.subrange(
                a + 1,
                hi as int,
            ));
        }
        a = a + 1;
    }
    let mut b = hi;
    while b > a && is_space_byte(line[b - 1])
        invariant
            lo <= a <= b <= hi <= line.len(),
            trim_end(line@.subrange(a as int, hi as int)) == trim_end(
                line@.subrange(a as int, b as int),
            ),
        decreases b - a,
    {
        proof {
            assert(line@.subrange(a as int, b as int).drop_last() =~= line@.subrange(
                a as int,
                b - 1,
            ));
        }
        b = b - 1;
    }
    (a, b)
}

proof fn lemma_digits_prefix(d: Seq<u8>, k: int)
    requires
        0 <= k <= d.len(),
        forall|j: int| 0 <= j < d.len() ==> is_digit(#[trigger] d[j]),
    ensures
        0 <= digits_value(d.take(k)) <= digits_value(d),
    decreases d.len(),
{
    if k == d.len() {
        assert(d.take(k) =~= d);
        if d.len() > 0 {
            lemma_digits_prefix(d.drop_last(), d.len() - 1);
            assert(d.drop_last().take(d.len() - 1) =~= d.drop_last());
        }
    } else {
        assert(d.drop_last().take(k) =~= d.take(k));
        lemma_digits_prefix(d.drop_last(), k);
        lemma_digits_prefix(d.drop_last(), d.len() - 1);
        assert(d.drop_last().take(d.len() - 1) =~= d.drop_last());
    }
}

/// Reads `line[a..b]` as a decimal u64, as `str::parse::<u64>` does.
fn parse_decimal(line: &Vec<u8>, a: usize, b: usize) -> (r: Option<u64>)
    requires
        a <= b <= line.len(),
    ensures
        r is Some <==> is_u64_text(line@.subrange(a as int, b as int)),
        r is Some ==> r->Some_0 == digits_value(
            unsigned_digits(line@.subrange(a as int, b as int)),
        ),
{
    let ghost text = line@.subrange(a as int, b as int);
    let mut start = a;
    if start < b && line[start] == 43u8 {
        start = start + 1;
    }
    proof {
        assert(unsigned_digits(text) =~= line@.subrange(start as int, b as int));
    }
    let ghost d = line@.subrange(start as int, b as int);
    if start == b {
        return None;
    }
    let mut acc: u64 = 0;
    let mut j = start;
    proof {
        assert(d.take(0) =~= Seq::<u8>::empty());
    }
    while j < b
        invariant
            a <= start <= j <= b <= line.len(),
            d == line@.subrange(start as int, b as int),
            unsigned_digits(line@.subrange(a as int, b as int)) == d,
            forall|q: int| 0 <= q < j - start ==> is_digit(#[trigger] d[q]),
            acc == digits_value(d.take(j - start)),
        decreases b - j,
    {
        let c = line[j];
        if c < 48u8 || c > 57u8 {
            assert(!is_digit(d[j - start]));
            return None;
        }
        let digit = (c - 48u8) as u64;
        proof {
            assert(d.take(j - start + 1).drop_last() =~= d.take(j - start));
        }
        if acc > (u64::MAX - digit) / 10 {
            proof {
                assert(acc * 10 + digit > u64::MAX) by (nonlinear_arith)
                    requires
                        acc > (u64::MAX - digit) / 10,
                        digit <= 9,
                ;
                if forall|q: int| 0 <= q < d.len() ==> is_digit(#[trigger] d[q]) {
                    lemma_digits_prefix(d, j - start + 1);
                }
            }
            return None;
        }
        acc = acc * 10 + digit;
        j = j + 1;
    }
    proof {
        assert(d.take(j - start) =~= d);
    }
    Some(acc)
}

proof fn lemma_spaces_take(s: Seq<u8>, j: int)
    requires
        0 <= j < s.len(),
    ensures
        spaces(s.take(j + 1)) == if s[j] == 32u8 {
            spaces(s.take(j)).push(j)
        } else {
            spaces(s.take(j))
        },
{
    assert(s.take(j + 1).drop_last() =~= s.take(j));
}

proof fn lemma_spaces_bounds(s: Seq<u8>)
    ensures
        forall|k: int| 0 <= k < spaces(s).len() ==> 0 <= #[trigger] spaces(s)[k] < s.len(),
        forall|k: int, m: int| 0 <= k < m < spaces(s).len() ==> #[trigger] spaces(s)[k] < #[trigger] spaces(s)[m],
    decreases s.len(),
{
    if s.len() > 0 {
        lemma_spaces_bounds(s.drop_last());
        let p = spaces(s.drop_last());
        if s.last() == 32u8 {
            assert forall|k: int| 0 <= k < p.len() implies p[k] < s.len() - 1 by {}
        }
    }
}

/// The positions of the spaces of `line`.
fn space_positions(line: &Vec<u8>) -> (r: Vec<usize>)
    ensures
        r@.len() == spaces(line@).len(),
        forall|k: int| 0 <= k < r@.len() ==> #[trigger] r@[k] as int == spaces(line@)[k],
{
    let mut found: Vec<usize> = Vec::new();
    let mut j: usize = 0;
    proof {
        assert(line@.take(0) =~= Seq::<u8>::empty());
    }
    while j < line.len()
        invariant
            0 <= j <= line.len(),
            found@.len() == spaces(line@.take(j as int)).len(),
            forall|k: int|
                0 <= k < found@.len() ==> #[trigger] found@[k] as int == spaces(
                    line@.take(j as int),
                )[k],
        decreases line.len() - j,
    {
        proof {
            lemma_spaces_take(line@, j as int);
        }
        if line[j] == 32u8 {
            found.push(j);
        }
        j = j + 1;
    }
    proof {
        assert(line@.take(j as int) =~= line@);
    }
    found
}

fn copy_range(line: &Vec<u8>, a: usize, b: usize) -> (r: Vec<u8>)
    requires
        a <= b <= line.len(),
    ensures
        r@ == line@.subrange(a as int, b as int),
{
    let mut out: Vec<u8> = Vec::new();
    let mut j = a;
    while j < b
        invariant
            a <= j <= b <= line.len(),
            out@ == line@.subrange(a as int, j as int),
        decreases b - j,
    {
        out.push(line[j]);
        proof {
            assert(out@ =~= line@.subrange(a as int, j + 1));
        }
        j = j + 1;
    }
    out
}

/// The entries match the file lines of `body` between the ruler at `q` and
/// the line at `e`, one for one.
pub open spec fn entries_match(v: Seq<ArchiveEntry>, body: Seq<Seq<u8>>, q: int, e: int) -> bool {
    &&& v.len() == e - q - 1
    &&& forall|x: int|
        0 <= x < v.len() ==> (#[trigger] v[x]).name@ == line_name(body[q + 1 + x], body[q])
            && v[x].size == line_size(body[q + 1 + x], body[q])
}

/// Reads the file table of 7-Zip's `l` listing. After the banner, the first
/// line that starts with a dash is a ruler whose spaces mark where the
/// columns start; each following line, up to the next line that starts with
/// a dash (or the end), is one file: its size is the number in the size
/// column, its name what stands from the name column on, both without the
/// white space around them.
pub fn parse_listing(out: &Vec<u8>) -> (r: Result<Vec<ArchiveEntry>, ListingError>)
    ensures
        (r is Err && r->Err_0 == ListingError::NoRuler) <==> !exists|q: int|
            first_dash(table_lines(out@), q),
        forall|q: int|
            first_dash(table_lines(out@), q) ==> ((r is Err && r->Err_0 == ListingError::BadColumns)
                <==> spaces(#[trigger] table_lines(out@)[q]).len() < 4),
        forall|q: int, e: int|
            first_dash(table_lines(out@), q) && spaces(table_lines(out@)[q]).len() >= 4
                && #[trigger] file_lines_end(table_lines(out@), q, e) ==> {
                &&& r is Ok <==> forall|x: int|
                    q < x < e ==> line_ok(
                        #[trigger] table_lines(out@)[x],
                        table_lines(out@)[q],
                    )
                &&& r is Err ==> r->Err_0 == ListingError::BadLine
                &&& r is Ok ==> entries_match(r->Ok_0@, table_lines(out@), q, e)
            },
{
    let lines = split_into_lines(out);
    let ghost lv = lines_view(lines@);
    let ghost body = table_lines(out@);
    let h = LISTING_HEADER_LINES;
    if lines.len() <= h {
        return Err(ListingError::NoRuler);
    }
    proof {
        assert(body == lv.subrange(h as int, lv.len() as int));
        assert forall|x: int| 0 <= x < body.len() implies #[trigger] body[x] == lines@[x + h]@ by {}
    }
    let mut r = h;
    while r < lines.len() && !starts_with_dash(&lines[r])
        invariant
            h <= r <= lines.len(),
            body.len() == lines.len() - h,
            forall|x: int| 0 <= x < body.len() ==> #[trigger] body[x] == lines@[x + h]@,
            forall|x: int| 0 <= x < r - h ==> !starts_dash(#[trigger] body[x]),
        decreases lines.len() - r,
    {
        r = r + 1;
    }
    if r == lines.len() {
        return Err(ListingError::NoRuler);
    }
    let ghost q = r - h;
    proof {
        assert(first_dash(body, q));
        assert forall|q2: int| first_dash(body, q2) implies q2 == q by {
            if q2 < q {
                assert(!starts_dash(body[q2]));
            } else if q2 > q {
                assert(!starts_dash(body[q]));
            }
        }
    }
    let ruler = &lines[r];
    let cols = space_positions(ruler);
    proof {
        lemma_spaces_bounds(ruler@);
    }
    if cols.len() < 4 {
        return Err(ListingError::BadColumns);
    }
    let size_pos = cols[1] + 1;
    let compressed_pos = cols[2] + 1;
    let name_pos = cols[3] + 1;
    proof {
        assert(spaces(ruler@)[1] < spaces(ruler@)[2] < spaces(ruler@)[3]);
        assert(size_pos == column(ruler@, 1) && compressed_pos == column(ruler@, 2));
        assert(name_pos == column(ruler@, 3));
    }
    let mut entries: Vec<ArchiveEntry> = Vec::new();
    let mut x = r + 1;
    while x < lines.len() && !starts_with_dash(&lines[x])
        invariant
            h <= r < x <= lines.len(),
            q == r - h,
            body == table_lines(out@),
            body.len() == lines.len() - h,
            forall|y: int| 0 <= y < body.len() ==> #[trigger] body[y] == lines@[y + h]@,
            body[q] == ruler@,
            first_dash(body, q),
            spaces(ruler@).len() >= 4,
            size_pos == column(ruler@, 1),
            compressed_pos == column(ruler@, 2),
            name_pos == column(ruler@, 3),
            size_pos < compressed_pos < name_pos,
            forall|y: int|
                q < y < x - h ==> !starts_dash(#[trigger] body[y]) && line_ok(body[y], ruler@),
            entries_match(entries@, body, q, x - h),
        decreases lines.len() - x,
    {
        let line = &lines[x];
        let ghost y = x - h;
        proof {
            assert(body[y] == line@);
            assert forall|e: int| #[trigger] file_lines_end(body, q, e) implies y < e by {
                if e <= y {
                    if e < y {
                        assert(!starts_dash(body[e]));
                    }
                }
            }
        }
        if line.len() < name_pos {
            return Err(ListingError::BadLine);
        }
        let (a, b) = trimmed(line, size_pos, compressed_pos);
        let parsed = parse_decimal(line, a, b);
        let size = match parsed {
            Some(v) => v,
            None => {
                return Err(ListingError::BadLine);
            },
        };
        let (na, nb) = trimmed(line, name_pos, line.len());
        let name = copy_range(line, na, nb);
        let ghost before = entries@;
        entries.push(ArchiveEntry { name, size });
        proof {
            assert(line_ok(body[y], ruler@));
            assert forall|k: int| 0 <= k < entries@.len() implies (#[trigger] entries@[k]).name@
                == line_name(body[q + 1 + k], body[q]) && entries@[k].size == line_size(
                body[q + 1 + k],
                body[q],
            ) by {
                if k < before.len() {
                    assert(entries@[k] == before[k]);
                }
            }
        }
        x = x + 1;
    }
    proof {
        let e = x - h;
        assert(file_lines_end(body, q, e));
        assert forall|e2: int| #[trigger] file_lines_end(body, q, e2) implies e2 == e by {
            if e2 < e {
                assert(!starts_dash(body[e2]));
            } else if e2 > e {
                assert(!starts_dash(body[e]));
            }
        }
    }
    Ok(entries)
}

} // verus!
