//! Walking the markup: resolve the board container, its rows and their
//! tiles with the configured CSS selectors, and collect each tile's
//! style text. The document tree, the selectors and the element handles
//! come from the `scraper` crate and are opaque here; everything read
//! out of them is handed on as plain strings.

use vstd::prelude::*;
use crate::board::{Board, Mark};
use crate::error::Error;
use crate::extract::{board_from_styles, lemma_grid_width_bound};

verus! {

#[verifier::external_type_specification]
#[verifier::external_body]
pub struct ExHtml(scraper::Html);

#[verifier::external_type_specification]
#[verifier::external_body]
pub struct ExSelector(scraper::Selector);

#[verifier::external_type_specification]
#[verifier::external_body]
pub struct ExElementRef<'a>(scraper::ElementRef<'a>);

/// Relies on scraper::Html::parse_fragment: parses markup text into a
/// document tree.
#[verifier::external_body]
fn parse_fragment(markup: &str) -> scraper::Html {
    scraper::Html::parse_fragment(markup)
}

/// Relies on scraper::Selector::parse: compiles a CSS selector; yields
/// nothing when the text is not a valid selector list.
#[verifier::external_body]
fn parse_selector(selectors: &str) -> Option<scraper::Selector> {
    match scraper::Selector::parse(selectors) {
        Ok(s) => Some(s),
        Err(_) => None,
    }
}

/// Relies on scraper::Html::select: the document's first element
/// matching the selector, if any.
#[verifier::external_body]
fn select_first<'a>(document: &'a scraper::Html, selector: &scraper::Selector) -> Option<
    scraper::ElementRef<'a>,
> {
    document.select(selector).next()
}

/// Relies on scraper::ElementRef::select: the element's descendant
/// elements matching the selector, in document order.
#[verifier::external_body]
fn select_within<'a>(
    element: &scraper::ElementRef<'a>,
    selector: &scraper::Selector,
) -> Vec<scraper::ElementRef<'a>> {
    element.select(selector).collect()
}

/// Relies on scraper::ElementRef::attr: the element's attribute text,
/// if the element carries that attribute.
#[verifier::external_body]
fn attr_text(element: &scraper::ElementRef<'_>, name: &str) -> Option<String> {
    match element.attr(name) {
        Some(t) => Some(t.to_owned()),
        None => None,
    }
}

/// Resolve the selectors against the markup and collect the style text
/// of every tile, row by row in document order. A selector that does not
/// compile, a missing board container, and a tile without a style
/// attribute are each reported as `MissingElement`.
pub fn tile_styles(
    markup: &str,
    board_sel: &str,
    row_sel: &str,
    tile_sel: &str,
) -> (r: Result<Vec<Vec<String>>, Error>)
    ensures
        r matches Err(e) ==> e matches Error::MissingElement { .. },
{
    let document = parse_fragment(markup);
    let bsel = match parse_selector(board_sel) {
        Some(s) => s,
        None => {
            return Err(Error::MissingElement { context: board_sel.to_owned() });
        },
    };
    let rsel = match parse_selector(row_sel) {
        Some(s) => s,
        None => {
            return Err(Error::MissingElement { context: row_sel.to_owned() });
        },
    };
    let tsel = match parse_selector(tile_sel) {
        Some(s) => s,
        None => {
            return Err(Error::MissingElement { context: tile_sel.to_owned() });
        },
    };
    let board_el = match select_first(&document, &bsel) {
        Some(e) => e,
        None => {
            return Err(Error::MissingElement { context: board_sel.to_owned() });
        },
    };
    let row_els = select_within(&board_el, &rsel);
    let mut styles: Vec<Vec<String>> = Vec::new();
    let mut y: usize = 0;
    let n_rows = row_els.len();
    while y < n_rows
        invariant
            n_rows == row_els@.len(),
        decreases n_rows - y,
    {
        let tile_els = select_within(&row_els[y], &tsel);
        let mut row_styles: Vec<String> = Vec::new();
        let mut x: usize = 0;
        let n_tiles = tile_els.len();
        while x < n_tiles
            invariant
                n_tiles == tile_els@.len(),
            decreases n_tiles - x,
        {
            match attr_text(&tile_els[x], "style") {
                Some(t) => row_styles.push(t),
                None => {
                    return Err(Error::MissingElement { context: "style".to_owned() });
                },
            }
            x = x + 1;
        }
        styles.push(row_styles);
        y = y + 1;
    }
    Ok(styles)
}

/// Extract the initial board from markup: walk the board container's
/// rows and tiles and build a board from their style texts, together
/// with the observed width and height. Whatever the document holds, an
/// extracted board is well formed, every square starts unmarked, and
/// every coordinate lies inside the returned width and height.
pub fn extract_board(
    markup: &str,
    board_sel: &str,
    row_sel: &str,
    tile_sel: &str,
) -> (r: Result<(Board, usize, usize), Error>)
    ensures
        r matches Ok(out) ==> out.0.well_formed() && forall|k: (int, int)|
            #[trigger] out.0@.contains_key(k) ==> 0 <= k.0 < out.1 && 0 <= k.1 < out.2
                && out.0@[k].mark == Mark::Empty,
        r matches Err(e) ==> !(e matches Error::OutOfBounds),
{
    let styles = match tile_styles(markup, board_sel, row_sel, tile_sel) {
        Ok(s) => s,
        Err(e) => {
            return Err(e);
        },
    };
    match board_from_styles(&styles) {
        Ok(out) => {
            proof {
                lemma_grid_width_bound(styles@);
            }
            Ok(out)
        },
        Err(e) => Err(e),
    }
}

} // verus!
