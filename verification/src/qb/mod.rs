//! The slice of QBasic that `GORILLAS.BAS` uses: a palette indexed
//! framebuffer and its drawing primitives.

pub mod circle;
pub mod input;
pub mod paint;
pub mod raster;
pub mod screen;
pub mod sound;
pub mod sprite;
pub mod text;
pub mod val;

use vstd::prelude::*;
use std::collections::VecDeque;
use crate::qb::screen::{Screen, DEFAULT_REGS};
use crate::qb::text::TextState;

verus! {

/// Returned by every blocking call once the window has been closed.
#[derive(Debug, Clone, Copy, PartialEq, Eq, Structural)]
pub struct Quit;

/// The QBasic machine: the screen, the text cursor and colours, the
/// character fonts and the keyboard queue.
pub struct Qb {
    pub screen: Screen,
    pub quit: bool,
    pub text: TextState,
    /// The 8 by 14 character generator of the graphics mode, 14 bytes a
    /// glyph.
    pub font14: Vec<u8>,
    /// The 8 by 16 character generator of the text mode, 16 bytes a glyph.
    pub font16: Vec<u8>,
    /// The keys waiting to be read, oldest first.
    pub keys: VecDeque<char>,
}

impl Qb {
    /// The keys waiting to be read, oldest first.
    pub open spec fn queued(&self) -> Seq<char> {
        self.keys@
    }

    /// A machine with a blank `width` by `height` screen, the default text
    /// state, the given fonts and no keys waiting.
    pub fn new(width: i32, height: i32, font14: Vec<u8>, font16: Vec<u8>) -> (q: Qb)
        requires
            0 <= width,
            0 <= height,
            width * height <= i32::MAX,
        ensures
            q.screen.wf(),
            q.screen.width == width,
            q.screen.height == height,
            q.screen.regs@ == DEFAULT_REGS@,
            forall|i: int| 0 <= i < q.screen.pixels@.len() ==> q.screen.pixels@[i] == 0,
            !q.quit,
            q.text == TextState::default_state(),
            q.font14@ == font14@,
            q.font16@ == font16@,
            q.queued().len() == 0,
    {
        Qb {
            screen: Screen::new(width, height),
            quit: false,
            text: TextState::default(),
            font14,
            font16,
            keys: VecDeque::new(),
        }
    }

    /// A machine with no fonts: everything it prints comes out as blank
    /// cells in the background colour.
    pub fn headless(width: i32, height: i32) -> (q: Qb)
        requires
            0 <= width,
            0 <= height,
            width * height <= i32::MAX,
        ensures
            q.screen.wf(),
            q.screen.width == width,
            q.screen.height == height,
            q.screen.regs@ == DEFAULT_REGS@,
            forall|i: int| 0 <= i < q.screen.pixels@.len() ==> q.screen.pixels@[i] == 0,
            !q.quit,
            q.text == TextState::default_state(),
            q.font14@.len() == 0,
            q.font16@.len() == 0,
            q.queued().len() == 0,
    {
        Qb::new(width, height, Vec::new(), Vec::new())
    }

    /// A fresh blank screen of the new size, with the default palette.
    pub fn resize(&mut self, width: i32, height: i32)
        requires
            0 <= width,
            0 <= height,
            width * height <= i32::MAX,
        ensures
            final(self).screen.wf(),
            final(self).screen.width == width,
            final(self).screen.height == height,
            final(self).screen.regs@ == DEFAULT_REGS@,
            forall|i: int|
                0 <= i < final(self).screen.pixels@.len() ==> final(self).screen.pixels@[i] == 0,
            final(self).text == old(self).text,
            final(self).quit == old(self).quit,
            final(self).font14 == old(self).font14,
            final(self).font16 == old(self).font16,
            final(self).queued() == old(self).queued(),
    {
        self.screen = Screen::new(width, height);
    }

    /// A key arrives at the back of the queue.
    pub fn push_key(&mut self, c: char)
        ensures
            final(self).queued() == old(self).queued().push(c),
            final(self).screen == old(self).screen,
            final(self).text == old(self).text,
            final(self).quit == old(self).quit,
            final(self).font14 == old(self).font14,
            final(self).font16 == old(self).font16,
    {
        self.keys.push_back(c);
    }

    /// INKEY$: the oldest key waiting, if any, or `Quit` once the window
    /// has been closed.
    pub fn inkey(&mut self) -> (r: Result<Option<char>, Quit>)
        ensures
            old(self).quit ==> r is Err && final(self).queued() == old(self).queued(),
            !old(self).quit && old(self).queued().len() == 0 ==> r == Ok::<Option<char>, Quit>(None)
                && final(self).queued() == old(self).queued(),
            !old(self).quit && old(self).queued().len() > 0 ==> r == Ok::<Option<char>, Quit>(
                Some(old(self).queued()[0]),
            ) && final(self).queued() == old(self).queued().drop_first(),
            final(self).screen == old(self).screen,
            final(self).text == old(self).text,
            final(self).quit == old(self).quit,
            final(self).font14 == old(self).font14,
            final(self).font16 == old(self).font16,
    {
        if self.quit {
            return Err(Quit);
        }
        Ok(self.keys.pop_front())
    }

    /// Discards whatever is in the keyboard buffer, e.g. before a fresh
    /// INKEY$ loop, matching a `WHILE INKEY$ <> "": WEND` in the game.
    pub fn clear_keys(&mut self)
        ensures
            final(self).queued().len() == 0,
            final(self).screen == old(self).screen,
            final(self).text == old(self).text,
            final(self).quit == old(self).quit,
            final(self).font14 == old(self).font14,
            final(self).font16 == old(self).font16,
    {
        self.keys.clear();
    }

    /// SCREEN 0 or SCREEN 9.
    ///
    /// Text mode is 640 by 400 with 16 pixel cells; every other mode given
    /// is the graphics mode, 640 by 350 with 14 pixel cells. Either way the
    /// screen is blank, the palette is reset and the text state goes back
    /// to its defaults.
    pub fn screen_mode(&mut self, mode: u8)
        ensures
            final(self).screen.wf(),
            final(self).screen.width == 640,
            final(self).screen.height == (if mode == 0 { 400i32 } else { 350i32 }),
            final(self).screen.regs@ == DEFAULT_REGS@,
            forall|i: int|
                0 <= i < final(self).screen.pixels@.len() ==> final(self).screen.pixels@[i] == 0,
            final(self).text == (TextState {
                cell_h: if mode == 0 { 16i32 } else { 14i32 },
                ..TextState::default_state()
            }),
            final(self).quit == old(self).quit,
            final(self).font14 == old(self).font14,
            final(self).font16 == old(self).font16,
            final(self).queued() == old(self).queued(),
    {
        let (w, h, cell_h): (i32, i32, i32) = if mode == 0 {
            (640, 400, 16)
        } else {
            (640, 350, 14)
        };
        self.resize(w, h);
        self.screen.regs = DEFAULT_REGS;
        let d: TextState = TextState::default();
        self.text = TextState { cell_h, ..d };
    }

    /// CLS, which clears the whole screen to the background attribute and
    /// puts the cursor back at the top left.
    pub fn cls(&mut self)
        requires
            old(self).screen.wf(),
        ensures
            final(self).screen.wf(),
            final(self).screen.width == old(self).screen.width,
            final(self).screen.height == old(self).screen.height,
            final(self).screen.regs == old(self).screen.regs,
            final(self).screen.pixels@ == Seq::new(
                old(self).screen.pixels@.len(),
                |i: int| old(self).text.bg,
            ),
            final(self).text == (TextState { row: 1, col: 1, ..old(self).text }),
            final(self).quit == old(self).quit,
            final(self).font14 == old(self).font14,
            final(self).font16 == old(self).font16,
            final(self).queued() == old(self).queued(),
    {
        let bg: u8 = self.text.bg;
        self.screen.cls(bg);
        self.text.row = 1;
        self.text.col = 1;
    }
}

} // verus!
