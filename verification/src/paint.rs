//! Display lists: what to draw, in the order it is drawn.

use vstd::prelude::*;

use crate::raster::{
    draw_rect, draw_string, outline, outline_painted, rect_painted, text_painted,
};

verus! {

/// One drawing step.
#[derive(Debug)]
pub enum DrawOp {
    Rect { x: usize, y: usize, w: usize, h: usize, color: u32 },
    Outline { x: usize, y: usize, w: usize, h: usize, color: u32 },
    Text { x: usize, y: usize, text: String, color: u32 },
}

/// One drawing step as plain numbers and characters.
pub enum Ink {
    Rect { x: int, y: int, w: int, h: int, color: u32 },
    Outline { x: int, y: int, w: int, h: int, color: u32 },
    Text { x: int, y: int, text: Seq<char>, color: u32 },
}

impl View for DrawOp {
    type V = Ink;

    open spec fn view(&self) -> Ink {
        match *self {
            DrawOp::Rect { x, y, w, h, color } => Ink::Rect {
                x: x as int,
                y: y as int,
                w: w as int,
                h: h as int,
                color,
            },
            DrawOp::Outline { x, y, w, h, color } => Ink::Outline {
                x: x as int,
                y: y as int,
                w: w as int,
                h: h as int,
                color,
            },
            DrawOp::Text { x, y, text, color } => Ink::Text {
                x: x as int,
                y: y as int,
                text: text@,
                color,
            },
        }
    }
}

/// A display list as plain steps.
pub open spec fn inks(ops: Seq<DrawOp>) -> Seq<Ink> {
    Seq::new(ops.len(), |i: int| ops[i]@)
}

/// The picture after one step.
pub open spec fn inked(buf: Seq<u32>, width: int, height: int, ink: Ink) -> Seq<u32> {
    match ink {
        Ink::Rect { x, y, w, h, color } => rect_painted(buf, width, height, x, y, w, h, color),
        Ink::Outline { x, y, w, h, color } => outline_painted(
            buf,
            width,
            height,
            x,
            y,
            w,
            h,
            color,
        ),
        Ink::Text { x, y, text, color } => text_painted(buf, width, height, x, y, text, color),
    }
}

/// The picture after all steps, first to last.
pub open spec fn all_inked(buf: Seq<u32>, width: int, height: int, list: Seq<Ink>) -> Seq<u32>
    decreases list.len(),
{
    if list.len() == 0 {
        buf
    } else {
        inked(all_inked(buf, width, height, list.drop_last()), width, height, list.last())
    }
}

/// Whether a step draws only at or below row `top`.
pub open spec fn stays_below(ink: Ink, top: int) -> bool {
    match ink {
        Ink::Rect { y, .. } => y >= top,
        Ink::Outline { y, .. } => y >= top,
        Ink::Text { y, .. } => y >= top,
    }
}

/// Drawing keeps the picture's size.
pub proof fn law_inking_keeps_size(buf: Seq<u32>, width: int, height: int, list: Seq<Ink>)
    ensures
        all_inked(buf, width, height, list).len() == buf.len(),
    decreases list.len(),
{
    if list.len() > 0 {
        law_inking_keeps_size(buf, width, height, list.drop_last());
    }
}

/// Steps that stay at or below row `top` leave every row above it as it was.
pub proof fn law_inking_stays_below(
    buf: Seq<u32>,
    width: int,
    height: int,
    list: Seq<Ink>,
    top: int,
)
    requires
        0 < width,
        forall|i: int| 0 <= i < list.len() ==> stays_below(#[trigger] list[i], top),
    ensures
        forall|i: int|
            0 <= i < buf.len() && i < top * width ==> #[trigger] all_inked(
                buf,
                width,
                height,
                list,
            )[i] == buf[i],
    decreases list.len(),
{
    if list.len() > 0 {
        let front = list.drop_last();
        assert forall|i: int| 0 <= i < front.len() implies stays_below(#[trigger] front[i], top) by {
            assert(front[i] == list[i]);
        }
        law_inking_stays_below(buf, width, height, front, top);
        law_inking_keeps_size(buf, width, height, front);
        let mid = all_inked(buf, width, height, front);
        assert(stays_below(list[list.len() - 1], top));
        assert forall|i: int| 0 <= i < buf.len() && i < top * width implies #[trigger] all_inked(
            buf,
            width,
            height,
            list,
        )[i] == buf[i] by {
            assert(i / width < top) by (nonlinear_arith)
                requires
                    0 <= i < top * width,
                    0 < width,
            ;
            assert(mid[i] == buf[i]);
        }
    }
}

/// Add a filled rectangle to a display list.
pub fn add_rect(ops: &mut Vec<DrawOp>, x: usize, y: usize, w: usize, h: usize, color: u32)
    ensures
        inks(final(ops)@) == inks(old(ops)@).push(
            (Ink::Rect { x: x as int, y: y as int, w: w as int, h: h as int, color }),
        ),
{
    let ghost before = ops@;
    ops.push(DrawOp::Rect { x, y, w, h, color });
    assert(inks(ops@) =~= inks(before).push(
        Ink::Rect { x: x as int, y: y as int, w: w as int, h: h as int, color },
    ));
}

/// Add a rectangle's border to a display list.
pub fn add_outline(ops: &mut Vec<DrawOp>, x: usize, y: usize, w: usize, h: usize, color: u32)
    ensures
        inks(final(ops)@) == inks(old(ops)@).push(
            (Ink::Outline { x: x as int, y: y as int, w: w as int, h: h as int, color }),
        ),
{
    let ghost before = ops@;
    ops.push(DrawOp::Outline { x, y, w, h, color });
    assert(inks(ops@) =~= inks(before).push(
        Ink::Outline { x: x as int, y: y as int, w: w as int, h: h as int, color },
    ));
}

/// Add a line of text to a display list.
pub fn add_text(ops: &mut Vec<DrawOp>, x: usize, y: usize, text: String, color: u32)
    ensures
        inks(final(ops)@) == inks(old(ops)@).push(
            (Ink::Text { x: x as int, y: y as int, text: text@, color }),
        ),
{
    let ghost before = ops@;
    let ghost letters = text@;
    ops.push(DrawOp::Text { x, y, text, color });
    assert(inks(ops@) =~= inks(before).push(
        Ink::Text { x: x as int, y: y as int, text: letters, color },
    ));
}

/// Draw a display list.
pub fn paint(buffer: &mut [u32], width: usize, height: usize, ops: &Vec<DrawOp>)
    requires
        width * height <= old(buffer)@.len(),
    ensures
        final(buffer)@ == all_inked(old(buffer)@, width as int, height as int, inks(ops@)),
        final(buffer)@.len() == old(buffer)@.len(),
{
    let ghost before = buffer@;
    let ghost list = inks(ops@);
    let mut i: usize = 0;
    while i < ops.len()
        invariant
            i <= ops.len(),
            list == inks(ops@),
            width * height <= before.len(),
            buffer@.len() == before.len(),
            buffer@ == all_inked(before, width as int, height as int, list.take(i as int)),
        decreases ops.len() - i,
    {
        match &ops[i] {
            DrawOp::Rect { x, y, w, h, color } => {
                draw_rect(buffer, width, height, *x, *y, *w, *h, *color);
            },
            DrawOp::Outline { x, y, w, h, color } => {
                outline(buffer, width, height, *x, *y, *w, *h, *color);
            },
            DrawOp::Text { x, y, text, color } => {
                draw_string(buffer, width, height, *x, *y, text.as_str(), *color);
            },
        }
        proof {
            let done = list.take(i + 1);
            assert(done.drop_last() =~= list.take(i as int));
            assert(done.last() == ops@[i as int]@);
        }
        i = i + 1;
    }
    assert(list.take(list.len() as int) =~= list);
}

} // verus!
