//! Pieces of rendering that need no geometry: the style sheet a page carries
//! in its `<style>` elements, and the pixel buffer pages are painted into.
use vstd::prelude::*;
use crate::html::{lemma_node_view_children, node_view, views, KindView, Node, NodeType, NodeView};
use crate::text::{chars_of, push_chars, push_str, replace_all, replace_vec, string_of};
use crate::values::Color;

verus! {

// ---------------------------------------------------------------------------
// Inline style sheets
// ---------------------------------------------------------------------------

/// The text children of a `<style>` element, each followed by a newline.
pub open spec fn style_texts(cs: Seq<NodeView>) -> Seq<char>
    decreases cs.len(),
{
    if cs.len() == 0 {
        Seq::empty()
    } else {
        style_texts(cs.drop_last()) + match cs.last().kind {
            KindView::Text(t) => t + seq!['\n'],
            KindView::Element(_, _) => Seq::empty(),
        }
    }
}

/// The style sheets of the tree below `n`, in document order: a `<style>`
/// element's texts, then what its children hold.
pub open spec fn inline_styles(n: NodeView) -> Seq<char>
    decreases n, n.children.len() + 1,
{
    let own = match n.kind {
        KindView::Element(tag, _) => if tag == "style"@ {
            style_texts(n.children)
        } else {
            Seq::empty()
        },
        KindView::Text(_) => Seq::empty(),
    };
    own + children_styles(n, n.children.len() as int)
}

/// The style sheets below the first `k` children of `n`.
pub open spec fn children_styles(n: NodeView, k: int) -> Seq<char>
    decreases n, k,
{
    if k <= 0 || k > n.children.len() {
        Seq::empty()
    } else {
        children_styles(n, k - 1) + inline_styles(n.children[k - 1])
    }
}

fn extract_into(node: &Node, out: &mut Vec<char>)
    ensures
        final(out)@ == old(out)@ + inline_styles(node_view(*node)),
    decreases node,
{
    proof {
        lemma_node_view_children(*node);
    }
    let ghost nv = node_view(*node);
    let ghost start = out@;
    match &node.node_type {
        NodeType::Element(data) => {
            if crate::html::chars_eq(&chars_of(data.tag_name.as_str()), &chars_of("style")) {
                let mut i: usize = 0;
                assert(nv.children.take(0) =~= Seq::<NodeView>::empty());
                while i < node.children.len()
                    invariant
                        nv == node_view(*node),
                        nv.children == views(node.children@),
                        i <= node.children@.len(),
                        out@ == start + style_texts(nv.children.take(i as int)),
                    decreases node.children.len() - i,
                {
                    assert(nv.children.take(i + 1).drop_last() =~= nv.children.take(i as int));
                    assert(nv.children[i as int] == node_view(node.children@[i as int]));
                    match &node.children[i].node_type {
                        NodeType::Text(t) => {
                            push_str(out, t.as_str());
                            out.push('\n');
                        },
                        NodeType::Element(_) => {},
                    }
                    i = i + 1;
                }
                assert(nv.children.take(i as int) =~= nv.children);
            }
        },
        NodeType::Text(_) => {},
    }
    let ghost mid = out@;
    assert(mid == start + match nv.kind {
        KindView::Element(tag, _) => if tag == "style"@ {
            style_texts(nv.children)
        } else {
            Seq::<char>::empty()
        },
        KindView::Text(_) => Seq::<char>::empty(),
    });
    let mut k: usize = 0;
    while k < node.children.len()
        invariant
            nv == node_view(*node),
            nv.children == views(node.children@),
            k <= node.children@.len(),
            out@ == mid + children_styles(nv, k as int),
        decreases node.children.len() - k,
    {
        assert(nv.children[k as int] == node_view(node.children@[k as int]));
        extract_into(&node.children[k], out);
        assert(out@ =~= mid + children_styles(nv, k + 1));
        k = k + 1;
    }
}

/// The CSS of a page's `<style>` elements, joined in document order.
pub fn extract_inline_styles(node: &Node) -> (r: String)
    ensures
        r@ == inline_styles(node_view(*node)),
{
    let mut out: Vec<char> = Vec::new();
    extract_into(node, &mut out);
    assert(out@ =~= inline_styles(node_view(*node)));
    string_of(&out)
}

// ---------------------------------------------------------------------------
// The pixel buffer
// ---------------------------------------------------------------------------

/// Pixels `0x00RRGGBB`, row by row.
pub struct Canvas {
    pub width: usize,
    pub height: usize,
    pub pixels: Vec<u32>,
}

/// The pixel value of a colour.
pub open spec fn rgb_of(c: Color) -> u32 {
    (c.r * 65536 + c.g * 256 + c.b) as u32
}

impl Canvas {
    /// One pixel per position.
    pub open spec fn wf(&self) -> bool {
        self.pixels@.len() == self.width * self.height
    }

    /// A `width` by `height` canvas filled with `bg`.
    pub fn new(width: usize, height: usize, bg: Color) -> (r: Canvas)
        requires
            width * height <= usize::MAX,
        ensures
            r.wf(),
            r.width == width,
            r.height == height,
            forall|i: int| 0 <= i < r.pixels@.len() ==> #[trigger] r.pixels@[i] == rgb_of(bg),
    {
        let v = bg.as_u32();
        let n = width * height;
        let mut pixels: Vec<u32> = Vec::new();
        while pixels.len() < n
            invariant
                pixels@.len() <= n,
                v == rgb_of(bg),
                forall|i: int| 0 <= i < pixels@.len() ==> #[trigger] pixels@[i] == v,
            decreases n - pixels@.len(),
        {
            pixels.push(v);
        }
        Canvas { width, height, pixels }
    }

    /// Sets the pixel at `(x, y)`.
    pub fn put(&mut self, x: usize, y: usize, v: u32)
        requires
            old(self).wf(),
            x < old(self).width,
            y < old(self).height,
        ensures
            final(self).wf(),
            final(self).width == old(self).width,
            final(self).height == old(self).height,
            final(self).pixels@ == old(self).pixels@.update(y * old(self).width + x, v),
    {
        proof {
            lemma_index_in(x as int, y as int, self.width as int, self.height as int);
        }
        let n = self.pixels.len();
        assert(y * self.width + x < n);
        let i = y * self.width + x;
        self.pixels.set(i, v);
    }

    /// The pixel at `(x, y)`.
    pub fn get(&self, x: usize, y: usize) -> (v: u32)
        requires
            self.wf(),
            x < self.width,
            y < self.height,
        ensures
            v == self.pixels@[y * self.width + x],
    {
        proof {
            lemma_index_in(x as int, y as int, self.width as int, self.height as int);
        }
        let n = self.pixels.len();
        assert(y * self.width + x < n);
        self.pixels[y * self.width + x]
    }
}

proof fn lemma_index_in(x: int, y: int, w: int, h: int)
    requires
        0 <= x < w,
        0 <= y < h,
    ensures
        0 <= y * w + x < w * h,
{
    assert(y * w + x < w * h) by (nonlinear_arith)
        requires
            0 <= x < w,
            0 <= y < h,
    ;
    assert(0 <= y * w) by (nonlinear_arith)
        requires
            0 <= y,
            0 <= w,
    ;
}


proof fn lemma_index_unique(x0: int, y0: int, x1: int, y1: int, w: int)
    requires
        0 <= x0 < w,
        0 <= x1 < w,
        0 <= y0,
        0 <= y1,
        y0 * w + x0 == y1 * w + x1,
    ensures
        x0 == x1,
        y0 == y1,
{
    if y0 < y1 {
        assert(y0 * w + w <= y1 * w) by (nonlinear_arith)
            requires
                y0 < y1,
                0 <= w,
        ;
    } else if y1 < y0 {
        assert(y1 * w + w <= y0 * w) by (nonlinear_arith)
            requires
                y1 < y0,
                0 <= w,
        ;
    }
}

/// The pixel at `(x, y)` after copying `page` in from row `dest` on, starting
/// at the page's row `scroll`: the page's pixel where both have it, the old
/// one elsewhere.
pub open spec fn blit_pixel(
    old: Seq<u32>,
    w: int,
    page: Seq<u32>,
    pw: int,
    ph: int,
    dest: int,
    scroll: int,
    x: int,
    y: int,
) -> u32 {
    if dest <= y && x < pw && y - dest + scroll < ph {
        page[(y - dest + scroll) * pw + x]
    } else {
        old[y * w + x]
    }
}

impl Canvas {
    /// Copies `page` into this canvas: its row `scroll + k` to row `dest + k`,
    /// for as many columns as both have, until either runs out of rows.
    pub fn blit(&mut self, page: &Canvas, dest: usize, scroll: usize)
        requires
            old(self).wf(),
            page.wf(),
        ensures
            final(self).wf(),
            final(self).width == old(self).width,
            final(self).height == old(self).height,
            forall|x: int, y: int|
                0 <= x < old(self).width && 0 <= y < old(self).height ==> #[trigger] final(self).pixels@[y
                    * old(self).width + x] == blit_pixel(
                    old(self).pixels@,
                    old(self).width as int,
                    page.pixels@,
                    page.width as int,
                    page.height as int,
                    dest as int,
                    scroll as int,
                    x,
                    y,
                ),
    {
        let ghost old_px = self.pixels@;
        let w = self.width;
        let h = self.height;
        let rows = if h > dest {
            h - dest
        } else {
            0
        };
        let cols = if w < page.width {
            w
        } else {
            page.width
        };
        let mut y: usize = 0;
        while y < rows
            invariant
                self.wf(),
                page.wf(),
                self.width == w,
                self.height == h,
                old_px.len() == w * h,
                rows == (if h > dest {
                    h - dest
                } else {
                    0
                }),
                cols <= w,
                cols <= page.width,
                cols == w || cols == page.width,
                y <= rows,
                y == 0 || y + scroll <= page.height,
                forall|xx: int, yy: int|
                    0 <= xx < w && 0 <= yy < h ==> #[trigger] self.pixels@[yy * w + xx] == if dest <= yy
                        < dest + y && xx < page.width && yy - dest + scroll < page.height {
                        page.pixels@[(yy - dest + scroll) * page.width + xx]
                    } else {
                        old_px[yy * w + xx]
                    },
            ensures
                self.wf(),
                self.width == w,
                self.height == h,
                forall|xx: int, yy: int|
                    0 <= xx < w && 0 <= yy < h ==> #[trigger] self.pixels@[yy * w + xx] == blit_pixel(
                        old_px,
                        w as int,
                        page.pixels@,
                        page.width as int,
                        page.height as int,
                        dest as int,
                        scroll as int,
                        xx,
                        yy,
                    ),
            decreases rows - y,
        {
            let src_y = y + scroll;
            if src_y >= page.height {
                break;
            }
            let row = y + dest;
            let mut x: usize = 0;
            let ghost before = self.pixels@;
            while x < cols
                invariant
                    self.wf(),
                    page.wf(),
                    self.width == w,
                    self.height == h,
                    row == y + dest,
                    row < h,
                    src_y == y + scroll,
                    src_y < page.height,
                    cols <= w,
                    cols <= page.width,
                    x <= cols,
                    before.len() == w * h,
                    forall|xx: int, yy: int|
                        0 <= xx < w && 0 <= yy < h ==> #[trigger] self.pixels@[yy * w + xx] == if yy
                            == row && xx < x {
                            page.pixels@[src_y * page.width + xx]
                        } else {
                            before[yy * w + xx]
                        },
                decreases cols - x,
            {
                let v = page.get(x, src_y);
                let ghost prev = self.pixels@;
                self.put(x, row, v);
                proof {
                    assert(self.pixels@ == prev.update(row * w + x, v));
                    lemma_index_in(x as int, row as int, w as int, h as int);
                    assert forall|xx: int, yy: int|
                        0 <= xx < w && 0 <= yy < h implies #[trigger] self.pixels@[yy * w + xx] == if yy
                            == row && xx < x + 1 {
                            page.pixels@[src_y * page.width + xx]
                        } else {
                            before[yy * w + xx]
                        } by {
                        lemma_index_in(xx, yy, w as int, h as int);
                        if yy * w + xx == row * w + x {
                            lemma_index_unique(xx, yy, x as int, row as int, w as int);
                        } else {
                            assert(self.pixels@[yy * w + xx] == prev[yy * w + xx]);
                        }
                    }
                }
                x = x + 1;
            }
            proof {
                assert forall|xx: int, yy: int|
                    0 <= xx < w && 0 <= yy < h implies #[trigger] self.pixels@[yy * w + xx] == if dest <= yy
                        < dest + y + 1 && xx < page.width && yy - dest + scroll < page.height {
                        page.pixels@[(yy - dest + scroll) * page.width + xx]
                    } else {
                        old_px[yy * w + xx]
                    } by {
                    if yy == row && xx < page.width && xx >= cols {
                        assert(cols == w);
                    }
                }
            }
            y = y + 1;
        }
    }
}


/// The page shown where a fetch fails: the message, with `<` escaped.
pub open spec fn error_page_text(message: Seq<char>) -> Seq<char> {
    "<body><h1>Could not load page</h1><p>"@ + replace_all(message, seq!['<'], "&lt;"@)
        + "</p></body>"@
}

/// The page shown where a fetch fails.
pub fn error_page(message: &str) -> (r: String)
    ensures
        r@ == error_page_text(message@),
{
    let mut buf: Vec<char> = Vec::new();
    push_str(&mut buf, "<body><h1>Could not load page</h1><p>");
    let lt = vec!['<'];
    assert(lt@ =~= seq!['<']);
    let esc = replace_vec(&chars_of(message), &lt, &chars_of("&lt;"));
    push_chars(&mut buf, &esc);
    push_str(&mut buf, "</p></body>");
    string_of(&buf)
}

} // verus!
