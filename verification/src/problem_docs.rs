//! The compiler's problem-code documentation: the table of its pages as
//! the documentation directory and the problem-codes CSV give them, the
//! lookup of a code's page, and the RST clean-up that turns a page into a
//! diagnostic's explanation.
use vstd::prelude::*;

use crate::chars::{
    find_chars, find_from, lemma_find_from_bounds, lines, lines_chars, starts_with, sub_chars, trim,
    trim_chars, trim_start,
};
use crate::text::{chars_of, join, join_strings, string_of};

verus! {

/// One page of the compiler's problem documentation: the problem code,
/// the page's reStructuredText and the problem's title.
#[derive(Debug, Clone)]
pub struct ProblemPage {
    pub code: String,
    pub rst: String,
    pub title: String,
}

/// The compiler's problem documentation, page by page.
#[derive(Debug, Clone)]
pub struct ProblemDocs {
    pub pages: Vec<ProblemPage>,
}

pub open spec fn page_view(p: ProblemPage) -> (Seq<char>, Seq<char>, Seq<char>) {
    (p.code@, p.rst@, p.title@)
}

pub open spec fn pages_view(ps: Seq<ProblemPage>) -> Seq<(Seq<char>, Seq<char>, Seq<char>)> {
    ps.map_values(|p: ProblemPage| page_view(p))
}

/// The `(rst_body, title)` of a problem code: the last page with that code.
pub open spec fn problem_doc(pages: Seq<(Seq<char>, Seq<char>, Seq<char>)>, code: Seq<char>) -> Option<
    (Seq<char>, Seq<char>),
>
    decreases pages.len(),
{
    if pages.len() == 0 {
        None
    } else if pages.last().0 == code {
        Some((pages.last().1, pages.last().2))
    } else {
        problem_doc(pages.drop_last(), code)
    }
}

/// The documentation page of a problem code, if the documentation holds one.
pub fn lookup_problem_doc<'a>(docs: &'a ProblemDocs, code: &str) -> (r: Option<(&'a str, &'a str)>)
    ensures
        match r {
            Some((rst, title)) => problem_doc(pages_view(docs.pages@), code@) == Some((rst@, title@)),
            None => problem_doc(pages_view(docs.pages@), code@) is None,
        },
{
    let ghost pv = pages_view(docs.pages@);
    let wanted = code.to_string();
    let mut i: usize = docs.pages.len();
    assert(pv.take(i as int) =~= pv);
    while i > 0
        invariant
            i <= docs.pages@.len(),
            pv == pages_view(docs.pages@),
            wanted@ == code@,
            problem_doc(pv, code@) == problem_doc(pv.take(i as int), code@),
        decreases i,
    {
        i = i - 1;
        let ghost t = pv.take(i + 1);
        assert(t.last() == page_view(docs.pages@[i as int]));
        assert(t.drop_last() =~= pv.take(i as int));
        if docs.pages[i].code == wanted {
            return Some((docs.pages[i].rst.as_str(), docs.pages[i].title.as_str()));
        }
    }
    None
}

// ----- Building the documentation from its files -----

/// A row of the problem-codes CSV (`Code,Name,Message`): the code and
/// the message, the text after the second comma. A row with fewer than
/// two commas gives nothing.
pub open spec fn csv_row(line: Seq<char>) -> Option<(Seq<char>, Seq<char>)> {
    match find_from(line, seq![','], 0) {
        None => None,
        Some(a) => match find_from(line, seq![','], a + 1) {
            None => None,
            Some(b) => Some((line.take(a), line.skip(b + 1))),
        },
    }
}

/// The code and title of every row that has them, in order.
pub open spec fn csv_titles(rows: Seq<Seq<char>>) -> Seq<(Seq<char>, Seq<char>)>
    decreases rows.len(),
{
    if rows.len() == 0 {
        Seq::empty()
    } else {
        csv_titles(rows.drop_last()) + match csv_row(rows.last()) {
            Some(t) => seq![t],
            None => Seq::empty(),
        }
    }
}

/// The rows of the CSV after its header line.
pub open spec fn csv_rows(csv: Seq<char>) -> Seq<Seq<char>> {
    if lines(csv).len() == 0 {
        Seq::empty()
    } else {
        lines(csv).skip(1)
    }
}

/// The title of a code: the last row naming it, else empty.
pub open spec fn title_of(titles: Seq<(Seq<char>, Seq<char>)>, code: Seq<char>) -> Seq<char>
    decreases titles.len(),
{
    if titles.len() == 0 {
        Seq::empty()
    } else if titles.last().0 == code {
        titles.last().1
    } else {
        title_of(titles.drop_last(), code)
    }
}

/// A file name without every trailing `.rst`.
pub open spec fn rst_code(name: Seq<char>) -> Seq<char>
    decreases name.len(),
{
    if name.len() >= 4 && name.skip(name.len() - 4) == seq!['.', 'r', 's', 't'] {
        rst_code(name.take(name.len() - 4))
    } else {
        name
    }
}

/// A problem page's file: `P….rst`.
pub open spec fn is_page_file(name: Seq<char>) -> bool {
    name.len() > 0 && name[0] == 'P' && name.len() >= 4 && name.skip(name.len() - 4) == seq![
        '.',
        'r',
        's',
        't',
    ]
}

/// The pages among the documentation directory's files (name, contents),
/// each titled from the CSV.
pub open spec fn pages_of(files: Seq<(Seq<char>, Seq<char>)>, titles: Seq<(Seq<char>, Seq<char>)>) -> Seq<
    (Seq<char>, Seq<char>, Seq<char>),
>
    decreases files.len(),
{
    if files.len() == 0 {
        Seq::empty()
    } else {
        let f = files.last();
        pages_of(files.drop_last(), titles) + if is_page_file(f.0) {
            seq![(rst_code(f.0), f.1, title_of(titles, rst_code(f.0)))]
        } else {
            Seq::empty()
        }
    }
}

fn csv_row_of(line: &Vec<char>) -> (r: Option<(String, String)>)
    ensures
        match r {
            Some((c, t)) => csv_row(line@) == Some((c@, t@)),
            None => csv_row(line@) is None,
        },
{
    let comma: Vec<char> = vec![','];
    assert(comma@ =~= seq![',']);
    let n = line.len();
    match find_chars(line, &comma, 0) {
        None => None,
        Some(a) => {
            proof {
                lemma_find_from_bounds(line@, comma@, 0);
                assert(a + 1 <= line@.len());
            }
            match find_chars(line, &comma, a + 1) {
                None => None,
                Some(b) => {
                    proof {
                        lemma_find_from_bounds(line@, comma@, (a + 1) as int);
                        assert(b + 1 <= line@.len());
                    }
                    let code = string_of(&sub_chars(line, 0, a));
                    let title = string_of(&sub_chars(line, b + 1, n));
                    assert(line@.subrange(0, a as int) =~= line@.take(a as int));
                    assert(line@.subrange(b + 1, line@.len() as int) =~= line@.skip(b + 1));
                    Some((code, title))
                },
            }
        },
    }
}

pub open spec fn pair_views(v: Seq<(String, String)>) -> Seq<(Seq<char>, Seq<char>)> {
    v.map_values(|p: (String, String)| (p.0@, p.1@))
}

fn title_lookup(titles: &Vec<(String, String)>, code: &String) -> (r: String)
    ensures
        r@ == title_of(pair_views(titles@), code@),
{
    let ghost tv = pair_views(titles@);
    let mut i: usize = titles.len();
    assert(tv.take(i as int) =~= tv);
    while i > 0
        invariant
            i <= titles@.len(),
            tv == pair_views(titles@),
            title_of(tv, code@) == title_of(tv.take(i as int), code@),
        decreases i,
    {
        i = i - 1;
        let ghost t = tv.take(i + 1);
        assert(t.last() == (titles@[i as int].0@, titles@[i as int].1@));
        assert(t.drop_last() =~= tv.take(i as int));
        if titles[i].0 == *code {
            return titles[i].1.clone();
        }
    }
    String::new()
}

fn ends_with_rst(v: &Vec<char>) -> (r: bool)
    ensures
        r == (v@.len() >= 4 && v@.skip(v@.len() - 4) == seq!['.', 'r', 's', 't']),
{
    let n = v.len();
    if n < 4 {
        return false;
    }
    let r = v[n - 4] == '.' && v[n - 3] == 'r' && v[n - 2] == 's' && v[n - 1] == 't';
    proof {
        let k = (n - 4) as int;
        if r {
            assert(v@.skip(k) =~= seq!['.', 'r', 's', 't']);
        } else if v@.skip(k) == seq!['.', 'r', 's', 't'] {
            assert(v@.skip(k)[0] == v@[k]);
            assert(v@.skip(k)[1] == v@[k + 1]);
            assert(v@.skip(k)[2] == v@[k + 2]);
            assert(v@.skip(k)[3] == v@[k + 3]);
        }
    }
    r
}

fn code_of_file(name: &Vec<char>) -> (r: Vec<char>)
    ensures
        r@ == rst_code(name@),
{
    let mut cur = sub_chars(name, 0, name.len());
    assert(name@.subrange(0, name@.len() as int) =~= name@);
    while ends_with_rst(&cur)
        invariant
            rst_code(name@) == rst_code(cur@),
        decreases cur@.len(),
    {
        let n = cur.len();
        let next = sub_chars(&cur, 0, n - 4);
        assert(cur@.subrange(0, n - 4) =~= cur@.take(n - 4));
        cur = next;
    }
    cur
}

/// The documentation as the files of its directory (name, contents) and
/// the problem-codes CSV make it: one page per `P….rst` file, in file
/// order, coded by the name without `.rst` and titled by the CSV's last
/// row for that code (empty when there is none).
pub fn problem_docs_from(csv: &str, files: &Vec<(String, String)>) -> (d: ProblemDocs)
    ensures
        pages_view(d.pages@) == pages_of(pair_views(files@), csv_titles(csv_rows(csv@))),
{
    let all = lines_chars(&chars_of(csv));
    let ghost lv = all@.map_values(|p: Vec<char>| p@);
    let ghost rows = csv_rows(csv@);
    let mut titles: Vec<(String, String)> = Vec::new();
    let mut i: usize = 1;
    proof {
        if lv.len() == 0 {
            assert(rows =~= Seq::<Seq<char>>::empty());
        }
        assert(csv_titles(rows.take(0)) =~= Seq::<(Seq<char>, Seq<char>)>::empty());
    }
    while i < all.len()
        invariant
            1 <= i,
            lv == all@.map_values(|p: Vec<char>| p@),
            lv == lines(csv@),
            rows == csv_rows(csv@),
            i <= all@.len() ==> pair_views(titles@) == csv_titles(rows.take(i - 1)),
            all@.len() > 0 ==> i <= all@.len(),
            all@.len() == 0 ==> titles@.len() == 0,
        decreases all@.len() - i,
    {
        assert(rows == lv.skip(1));
        assert(rows[i - 1] == all@[i as int]@);
        let ghost before = titles@;
        match csv_row_of(&all[i]) {
            Some(t) => {
                titles.push(t);
            },
            None => {},
        }
        assert(rows.take(i as int).drop_last() =~= rows.take(i - 1));
        assert(rows.take(i as int).last() == rows[i - 1]);
        assert(pair_views(titles@) =~= csv_titles(rows.take(i as int)));
        i = i + 1;
    }
    proof {
        if lv.len() == 0 {
            assert(rows =~= Seq::<Seq<char>>::empty());
            assert(pair_views(titles@) =~= csv_titles(rows));
        } else {
            assert(rows.len() == all@.len() - 1);
            assert(rows.take(all@.len() - 1) =~= rows);
        }
    }
    let ghost tv = csv_titles(rows);
    assert(pair_views(titles@) == tv);
    let ghost fv = pair_views(files@);
    let mut pages: Vec<ProblemPage> = Vec::new();
    let mut j: usize = 0;
    assert(pages_of(fv.take(0), tv) =~= Seq::<(Seq<char>, Seq<char>, Seq<char>)>::empty());
    while j < files.len()
        invariant
            j <= files@.len(),
            fv == pair_views(files@),
            pair_views(titles@) == tv,
            pages_view(pages@) == pages_of(fv.take(j as int), tv),
        decreases files@.len() - j,
    {
        let name = chars_of(files[j].0.as_str());
        assert(fv.take(j + 1).drop_last() =~= fv.take(j as int));
        assert(fv.take(j + 1).last() == (files@[j as int].0@, files@[j as int].1@));
        let ghost before = pages@;
        if name.len() > 0 && name[0] == 'P' && ends_with_rst(&name) {
            let code = string_of(&code_of_file(&name));
            let title = title_lookup(&titles, &code);
            let page = ProblemPage { code, rst: files[j].1.clone(), title };
            pages.push(page);
            assert(pages_view(pages@) =~= pages_view(before).push(page_view(page)));
        } else {
            assert(pages_view(pages@) =~= pages_view(before));
        }
        assert(pages_view(pages@) =~= pages_of(fv.take(j + 1), tv));
        j = j + 1;
    }
    assert(fv.take(files@.len() as int) =~= fv);
    ProblemDocs { pages }
}

/// Number of leading lines that are blank after trimming.
pub open spec fn blank_prefix_len(ls: Seq<Seq<char>>) -> int
    decreases ls.len(),
{
    if ls.len() > 0 && trim(ls[0]).len() == 0 {
        1 + blank_prefix_len(ls.drop_first())
    } else {
        0
    }
}

/// A page whose first and third lines (leading whitespace aside) start
/// with `=` opens with an RST title block: those three lines and the
/// blank lines after them are dropped and the rest is joined with `\n`.
/// Any other text is returned unchanged.
pub open spec fn strip_rst_title(rst: Seq<char>) -> Seq<char> {
    let ls = lines(rst);
    if ls.len() >= 3 && starts_with(trim_start(ls[0]), seq!['=']) && starts_with(
        trim_start(ls[2]),
        seq!['='],
    ) {
        let rest = ls.skip(3);
        join(rest.skip(blank_prefix_len(rest)), "\n"@)
    } else {
        rst
    }
}

fn opens_with_rule(line: &Vec<char>) -> (r: bool)
    ensures
        r == starts_with(trim_start(line@), seq!['=']),
{
    let t = crate::chars::trim_start_chars(line);
    let eq: Vec<char> = vec!['='];
    assert(eq@ =~= seq!['=']);
    crate::chars::starts_with_chars(&t, &eq)
}

/// Removes the leading RST title block (`=====` / `P4007` / `=====`) of
/// a documentation page.
pub fn strip_rst_title_block(rst: &str) -> (r: String)
    ensures
        r@ == strip_rst_title(rst@),
{
    let v = chars_of(rst);
    let ls = lines_chars(&v);
    let ghost lv = ls@.map_values(|p: Vec<char>| p@);
    if ls.len() >= 3 && opens_with_rule(&ls[0]) && opens_with_rule(&ls[2]) {
        assert(lv[0] == ls@[0]@ && lv[2] == ls@[2]@);
        let ghost rest = lv.skip(3);
        let mut k: usize = 3;
        assert(blank_prefix_len(rest) == blank_prefix_len(lv.skip(3)));
        while k < ls.len() && trim_chars(&ls[k]).len() == 0
            invariant
                3 <= k <= ls.len(),
                lv == ls@.map_values(|p: Vec<char>| p@),
                rest == lv.skip(3),
                blank_prefix_len(rest) == (k - 3) + blank_prefix_len(lv.skip(k as int)),
            decreases ls.len() - k,
        {
            assert(lv.skip(k as int)[0] == ls@[k as int]@);
            assert(lv.skip(k as int).drop_first() =~= lv.skip(k + 1));
            k = k + 1;
        }
        assert(blank_prefix_len(lv.skip(k as int)) == 0) by {
            if k < ls.len() {
                assert(lv.skip(k as int)[0] == ls@[k as int]@);
            }
        }
        assert(rest.skip(blank_prefix_len(rest)) =~= lv.skip(k as int));
        let mut kept: Vec<String> = Vec::new();
        let mut i: usize = k;
        while i < ls.len()
            invariant
                k <= i <= ls.len(),
                lv == ls@.map_values(|p: Vec<char>| p@),
                crate::text::views(kept@) == lv.subrange(k as int, i as int),
            decreases ls.len() - i,
        {
            let s = string_of(&ls[i]);
            proof {
                crate::text::lemma_views_push(kept@, s);
            }
            kept.push(s);
            assert(lv.subrange(k as int, i + 1) =~= lv.subrange(k as int, i as int).push(
                ls@[i as int]@,
            ));
            i = i + 1;
        }
        assert(lv.subrange(k as int, ls.len() as int) =~= lv.skip(k as int));
        let joined = join_strings(&kept, "\n");
        assert(crate::text::views(kept@) == kept@.map_values(|s: String| s@));
        return joined;
    }
    rst.to_string()
}

/// The explanation a diagnostic carries for a problem code: its page
/// without the title block.
pub fn lookup_problem_explanation(docs: &ProblemDocs, code: &str) -> (r: Option<String>)
    ensures
        match problem_doc(pages_view(docs.pages@), code@) {
            Some((rst, _title)) => r matches Some(s) && s@ == strip_rst_title(rst),
            None => r is None,
        },
{
    match lookup_problem_doc(docs, code) {
        Some((rst, _title)) => Some(strip_rst_title_block(rst)),
        None => None,
    }
}

} // verus!
