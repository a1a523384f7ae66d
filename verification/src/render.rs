//! The template engine and the HTML minifier, behind trusted wrappers,
//! and the page assembly built on them.
//!
//! A render's result depends on the template set the engine was loaded
//! with, so nothing is claimed of the returned text; the minifier's result
//! is a function of its input alone and gets a name, `minified_of`.

use vstd::prelude::*;
use crate::records::SiteError;
use crate::text::{views_of, robots_txt_of, build_link_list, generate_robots_txt};
use vstd::string::StringExecFns;

verus! {

#[verifier::external_type_specification]
#[verifier::external_body]
pub struct ExTera(tera::Tera);

#[verifier::external_type_specification]
#[verifier::external_body]
pub struct ExContext(tera::Context);

#[verifier::external_type_specification]
#[verifier::external_body]
pub struct ExTeraError(tera::Error);

/// What the HTML minifier returns for a given document, with the default
/// configuration.
pub uninterp spec fn minified_of(html: Seq<char>) -> Seq<u8>;

/// Relies on simple_minify_html::minify with the default configuration:
/// the result is a function of the input bytes alone.
#[verifier::external_body]
fn minify_bytes(html: &str) -> (r: Vec<u8>)
    ensures
        r@ == minified_of(html@),
{
    simple_minify_html::minify(html.as_bytes(), None)
}

/// Minifies one finished HTML document for writing.
pub fn minified_page(html: &str) -> (r: Vec<u8>)
    ensures
        r@ == minified_of(html@),
{
    minify_bytes(html)
}

/// Relies on tera::Context::new: an empty render context.
#[verifier::external_body]
fn context_new() -> tera::Context {
    tera::Context::new()
}

/// Relies on tera::Context::insert with a string value, which cannot fail
/// for a plain string.
#[verifier::external_body]
fn context_insert(c: &mut tera::Context, key: &str, value: &str) {
    c.insert(key.to_owned(), value)
}

/// Relies on tera::Tera::render: renders the named template with the
/// given context. The result also depends on the template set the engine
/// was built with, so nothing is claimed of the returned text.
#[verifier::external_body]
fn tera_render(t: &tera::Tera, name: &str, c: &tera::Context) -> Result<String, tera::Error> {
    t.render(name, c)
}

/// Relies on the Display impl of tera::Error for a readable message.
#[verifier::external_body]
fn tera_error_message(e: &tera::Error) -> String {
    format!("{}", e)
}

/// Wraps a rendered page body in the shared page shell, with the given
/// title. A failure reported by the template engine is a template error.
pub fn render_template_with_base(t: &tera::Tera, title: &str, body: &str) -> (r: Result<
    String,
    SiteError,
>)
    ensures
        r matches Err(e) ==> e is Template,
{
    let mut c = context_new();
    context_insert(&mut c, "title", title);
    context_insert(&mut c, "body", body);
    match tera_render(t, "html_page.html", &c) {
        Ok(s) => Ok(s),
        Err(e) => Err(SiteError::Template { message: tera_error_message(&e) }),
    }
}

/// Renders the home page body from the two pre-built link lists.
pub fn render_index_body(t: &tera::Tera, meta_links: &str, kindle_links: &str) -> (r: Result<
    String,
    SiteError,
>)
    ensures
        r matches Err(e) ==> e is Template,
{
    let mut c = context_new();
    context_insert(&mut c, "meta_links", meta_links);
    context_insert(&mut c, "kindle_links", kindle_links);
    match tera_render(t, "index_body.html", &c) {
        Ok(s) => Ok(s),
        Err(e) => Err(SiteError::Template { message: tera_error_message(&e) }),
    }
}

/// Renders the "not found" page body, which takes no inputs.
pub fn render_error_body(t: &tera::Tera) -> (r: Result<String, SiteError>)
    ensures
        r matches Err(e) ==> e is Template,
{
    let c = context_new();
    match tera_render(t, "404_body.html", &c) {
        Ok(s) => Ok(s),
        Err(e) => Err(SiteError::Template { message: tera_error_message(&e) }),
    }
}

/// The global pages of the site, ready to write: the minified home and
/// "not found" pages, and `robots.txt`, each with its filename.
pub struct CorePages {
    pub index_name: String,
    pub index: Vec<u8>,
    pub error_name: String,
    pub error_page: Vec<u8>,
    pub robots_name: String,
    pub robots: String,
}

/// Builds the home page, the "not found" page and `robots.txt` from the
/// two ordered model lists. The home page body lists one navigation link
/// per model; `robots.txt` is pinned exactly. A failure reported by the
/// template engine is a template error.
pub fn generate_core_pages(
    t: &tera::Tera,
    models: &Vec<String>,
    kindle_models: &Vec<String>,
) -> (r: Result<CorePages, SiteError>)
    ensures
        r matches Ok(cp) ==> {
            &&& cp.index_name@ == "index.html"@
            &&& cp.error_name@ == "404.html"@
            &&& cp.robots_name@ == "robots.txt"@
            &&& cp.robots@ == robots_txt_of(views_of(models@), views_of(kindle_models@))
        },
        r matches Err(e) ==> e is Template,
{
    let meta_links = build_link_list(models);
    let kindle_links = build_link_list(kindle_models);
    let index_body = match render_index_body(t, meta_links.as_str(), kindle_links.as_str()) {
        Ok(s) => s,
        Err(e) => {
            return Err(e);
        },
    };
    let index_page = match render_template_with_base(
        t,
        "Meta & Kindle Firmware Update Archive",
        index_body.as_str(),
    ) {
        Ok(s) => s,
        Err(e) => {
            return Err(e);
        },
    };
    let index = minified_page(index_page.as_str());
    let error_body = match render_error_body(t) {
        Ok(s) => s,
        Err(e) => {
            return Err(e);
        },
    };
    let error_full = match render_template_with_base(t, "404 - Page Not Found", error_body.as_str())
        {
        Ok(s) => s,
        Err(e) => {
            return Err(e);
        },
    };
    let error_page = minified_page(error_full.as_str());
    let robots = generate_robots_txt(models, kindle_models);
    Ok(
        CorePages {
            index_name: String::from_str("index.html"),
            index,
            error_name: String::from_str("404.html"),
            error_page,
            robots_name: String::from_str("robots.txt"),
            robots,
        },
    )
}

} // verus!
