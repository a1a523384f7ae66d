//! Text derived from model names: filenames, page titles, navigation
//! links, and `robots.txt`.

use vstd::prelude::*;
use vstd::string::StringExecFns;

verus! {

/// A model name with every space replaced by an underscore.
pub open spec fn underscored(s: Seq<char>) -> Seq<char> {
    s.map_values(|c: char| if c == ' ' { '_' } else { c })
}

/// Replaces every space of `s` with an underscore.
pub fn replace_spaces(s: &str) -> (r: String)
    ensures
        r@ == underscored(s@),
{
    let n = s.unicode_len();
    let mut out = String::new();
    let mut i: usize = 0;
    while i < n
        invariant
            0 <= i <= n,
            n == s@.len(),
            out@ =~= underscored(s@.subrange(0, i as int)),
        decreases n - i,
    {
        let c = s.get_char(i);
        if c == ' ' {
            out.append("_");
            proof {
                reveal_strlit("_");
            }
        } else {
            out.append(s.substring_char(i, i + 1));
        }
        proof {
            assert(underscored(s@.subrange(0, i + 1)) =~= underscored(
                s@.subrange(0, i as int),
            ).push(if s@[i as int] == ' ' { '_' } else { s@[i as int] }));
            assert(s@.subrange(i as int, i + 1) =~= seq![s@[i as int]]);
        }
        i = i + 1;
    }
    proof {
        assert(s@.subrange(0, n as int) =~= s@);
    }
    out
}

/// An underscored name holds no space at all.
pub proof fn lemma_underscored_no_spaces(s: Seq<char>)
    ensures
        forall|i: int| 0 <= i < underscored(s).len() ==> #[trigger] underscored(s)[i] != ' ',
{
}

/// The file a model's listing page is written to:
/// the model name with spaces underscored, then `_firmware.html`.
pub open spec fn filename_of(m: Seq<char>) -> Seq<char> {
    underscored(m) + "_firmware.html"@
}

/// Builds the listing-page filename for a model.
pub fn model_filename(m: &str) -> (r: String)
    ensures
        r@ == filename_of(m@),
{
    let mut out = replace_spaces(m);
    out.append("_firmware.html");
    out
}

/// The title of a model's listing page.
pub open spec fn title_of(m: Seq<char>) -> Seq<char> {
    m + " Firmware Update Archive"@
}

/// Builds the listing-page title for a model.
pub fn model_title(m: &str) -> (r: String)
    ensures
        r@ == title_of(m@),
{
    let mut out = String::from_str(m);
    out.append(" Firmware Update Archive");
    out
}

/// The navigation link of a model on the home page: the href is the
/// underscored name with the `_firmware` suffix and no extension, and the
/// link text is the name itself.
pub open spec fn link_of(m: Seq<char>) -> Seq<char> {
    "<a href='"@ + underscored(m) + "_firmware' class='link link-white'>"@ + m + "</a>"@
}

/// Builds the navigation link for one model.
pub fn model_link(m: &str) -> (r: String)
    ensures
        r@ == link_of(m@),
{
    let mut out = String::from_str("<a href='");
    out.append(replace_spaces(m).as_str());
    out.append("_firmware' class='link link-white'>");
    out.append(m);
    out.append("</a>");
    out
}

/// Lines joined with `\n` between them and nothing after the last.
pub open spec fn joined_lines(items: Seq<Seq<char>>) -> Seq<char>
    decreases items.len(),
{
    if items.len() == 0 {
        Seq::empty()
    } else if items.len() == 1 {
        items[0]
    } else {
        joined_lines(items.drop_last()) + "\n"@ + items.last()
    }
}

/// The views of a list of strings.
pub open spec fn views_of(ss: Seq<String>) -> Seq<Seq<char>> {
    ss.map_values(|s: String| s@)
}

/// The newline-joined navigation links of a family's models.
pub open spec fn link_list_of(ms: Seq<Seq<char>>) -> Seq<char> {
    joined_lines(ms.map_values(|m: Seq<char>| link_of(m)))
}

/// Builds the newline-joined link list for a family's models.
pub fn build_link_list(models: &Vec<String>) -> (r: String)
    ensures
        r@ == link_list_of(views_of(models@)),
{
    let mut out = String::new();
    let n = models.len();
    let mut i: usize = 0;
    while i < n
        invariant
            0 <= i <= n,
            n == models@.len(),
            out@ == joined_lines(
                views_of(models@.subrange(0, i as int)).map_values(|m: Seq<char>| link_of(m)),
            ),
        decreases n - i,
    {
        if i > 0 {
            out.append("\n");
        }
        let link = model_link(models[i].as_str());
        out.append(link.as_str());
        proof {
            let lines = views_of(models@.subrange(0, i + 1)).map_values(
                |m: Seq<char>| link_of(m),
            );
            assert(lines.drop_last() =~= views_of(models@.subrange(0, i as int)).map_values(
                |m: Seq<char>| link_of(m),
            ));
            assert(lines.last() == link_of(models@[i as int]@));
            assert(out@ =~= joined_lines(lines));
        }
        i = i + 1;
    }
    proof {
        assert(models@.subrange(0, n as int) =~= models@);
    }
    out
}

/// One `Allow` line of `robots.txt`.
pub open spec fn allow_line_of(m: Seq<char>) -> Seq<char> {
    "Allow: /"@ + underscored(m) + "_firmware"@
}

/// The whole `robots.txt`: the fixed three-line header, then one `Allow`
/// line per model, headset models first, with no blank line at the end.
pub open spec fn robots_txt_of(ms: Seq<Seq<char>>, ks: Seq<Seq<char>>) -> Seq<char> {
    "User-agent: *\nDisallow: /\nAllow: /$\n"@ + joined_lines(
        (ms + ks).map_values(|m: Seq<char>| allow_line_of(m)),
    )
}

/// `robots.txt` carries exactly one `Allow` line per model, headset
/// models first: the joined line list has one entry per model, and entry
/// `k` is the `Allow` line of the `k`-th model.
pub proof fn lemma_one_allow_line_per_model(ms: Seq<Seq<char>>, ks: Seq<Seq<char>>, k: int)
    requires
        0 <= k < ms.len() + ks.len(),
    ensures
        (ms + ks).map_values(|m: Seq<char>| allow_line_of(m)).len() == ms.len() + ks.len(),
        (ms + ks).map_values(|m: Seq<char>| allow_line_of(m))[k] == allow_line_of(
            if k < ms.len() {
                ms[k]
            } else {
                ks[k - ms.len()]
            },
        ),
{
}

/// Builds one `Allow` line.
fn build_allow_line(m: &str) -> (r: String)
    ensures
        r@ == allow_line_of(m@),
{
    let mut out = String::from_str("Allow: /");
    out.append(replace_spaces(m).as_str());
    out.append("_firmware");
    out
}

/// Builds `robots.txt` from the two ordered model lists.
pub fn generate_robots_txt(models: &Vec<String>, kindle_models: &Vec<String>) -> (r: String)
    ensures
        r@ == robots_txt_of(views_of(models@), views_of(kindle_models@)),
{
    let ghost all = views_of(models@) + views_of(kindle_models@);
    let mut lines: Vec<String> = Vec::new();
    let mut i: usize = 0;
    while i < models.len()
        invariant
            0 <= i <= models@.len(),
            lines@.len() == i,
            forall|j: int| 0 <= j < i ==> (#[trigger] lines@[j])@ == allow_line_of(
                views_of(models@)[j],
            ),
        decreases models@.len() - i,
    {
        lines.push(build_allow_line(models[i].as_str()));
        i = i + 1;
    }
    let mut k: usize = 0;
    while k < kindle_models.len()
        invariant
            0 <= k <= kindle_models@.len(),
            lines@.len() == models@.len() + k,
            forall|j: int| 0 <= j < models@.len() ==> (#[trigger] lines@[j])@ == allow_line_of(
                views_of(models@)[j],
            ),
            forall|j: int| 0 <= j < k ==> (#[trigger] lines@[models@.len() + j])@ == allow_line_of(
                views_of(kindle_models@)[j],
            ),
        decreases kindle_models@.len() - k,
    {
        lines.push(build_allow_line(kindle_models[k].as_str()));
        k = k + 1;
    }
    proof {
        let mapped = all.map_values(|m: Seq<char>| allow_line_of(m));
        assert forall|j: int| 0 <= j < all.len() implies views_of(lines@)[j] == mapped[j] by {
            if j < models@.len() {
                assert(all[j] == views_of(models@)[j]);
                assert(lines@[j]@ == allow_line_of(views_of(models@)[j]));
            } else {
                assert(all[j] == views_of(kindle_models@)[j - models@.len()]);
                assert(lines@[models@.len() + (j - models@.len())]@ == allow_line_of(
                    views_of(kindle_models@)[j - models@.len()],
                ));
            }
        }
        assert(views_of(lines@) =~= mapped);
    }
    let mut out = String::from_str("User-agent: *\nDisallow: /\nAllow: /$\n");
    let joined = join_lines(&lines);
    out.append(joined.as_str());
    out
}

/// Joins the given lines with `\n` between them.
fn join_lines(lines: &Vec<String>) -> (r: String)
    ensures
        r@ == joined_lines(views_of(lines@)),
{
    let mut out = String::new();
    let n = lines.len();
    let mut i: usize = 0;
    while i < n
        invariant
            0 <= i <= n,
            n == lines@.len(),
            out@ == joined_lines(views_of(lines@.subrange(0, i as int))),
        decreases n - i,
    {
        if i > 0 {
            out.append("\n");
        }
        out.append(lines[i].as_str());
        proof {
            let pref = views_of(lines@.subrange(0, i + 1));
            assert(pref.drop_last() =~= views_of(lines@.subrange(0, i as int)));
            assert(pref.last() == lines@[i as int]@);
            assert(out@ =~= joined_lines(pref));
        }
        i = i + 1;
    }
    proof {
        assert(lines@.subrange(0, n as int) =~= lines@);
    }
    out
}

} // verus!
