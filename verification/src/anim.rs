//! The animation state machine. It owns the token stream and replays it
//! one token per step: visible tokens and color changes emit one frame,
//! a pause emits as many identical frames as its count (possibly none),
//! and the driving loop performs exactly one step per token, so it
//! terminates after exactly as many steps as there are tokens.

use vstd::prelude::*;

use crate::render::GlyphEntry;
use crate::render::GlyphTable;
use crate::render::PixelBuffer;
use crate::render::RenderConfig;
use crate::render::compose_frame;
use crate::render::spec_blank;
use crate::render::spec_render;
use crate::token::BiOSToken;
use crate::token::Rgba;
use crate::token::TokView;
use crate::token::spec_white;
use crate::token::toks_view;

verus! {

/// How many frames the step over token `idx` emits: a pause holds its
/// count of extra frames, every other token yields exactly one.
pub open spec fn spec_step_frames(toks: Seq<TokView>, idx: int) -> int {
    if 0 <= idx < toks.len() {
        match toks[idx] {
            TokView::Pause(n) => n as int,
            _ => 1,
        }
    } else {
        0
    }
}

/// The pixel contents of every frame emitted from token `idx` on: each
/// step contributes its frame count of identical renders of the prefix
/// that ends at its token.
pub open spec fn spec_frames_from(
    toks: Seq<TokView>,
    idx: int,
    entries: Seq<GlyphEntry>,
    cfg: RenderConfig,
) -> Seq<Seq<Rgba>>
    decreases toks.len() - idx,
{
    if idx < 0 || idx >= toks.len() {
        Seq::empty()
    } else {
        Seq::new(
            spec_step_frames(toks, idx) as nat,
            |i: int| spec_render(toks.take(idx + 1), entries, cfg).0,
        ) + spec_frames_from(toks, idx + 1, entries, cfg)
    }
}

/// The pixel contents of a sequence of produced frames.
pub open spec fn frames_view(fs: Seq<PixelBuffer>) -> Seq<Seq<Rgba>> {
    fs.map_values(|p: PixelBuffer| p.pixels@)
}

/// The renderer state: the canvas of the frame rendered last, the token
/// cursor, the frame counter, the token stream, the replayed active color,
/// and the static configuration and glyph table.
pub struct Frame {
    pub img: PixelBuffer,
    pub frame_index: usize,
    pub token_index: usize,
    pub tokens: Vec<BiOSToken>,
    pub current_color: Rgba,
    pub cfg: RenderConfig,
    pub table: GlyphTable,
}

impl Frame {
    pub open spec fn wf(self) -> bool {
        self.cfg.wf() && self.table.wf() && self.token_index <= self.tokens@.len()
            && self.img.wf() && self.img.width == self.cfg.width && self.img.height
            == self.cfg.height
    }

    /// The views of the tokens consumed so far.
    pub open spec fn prefix(self) -> Seq<TokView> {
        toks_view(self.tokens@).take(
            if self.token_index <= self.tokens@.len() {
                self.token_index as int
            } else {
                self.tokens@.len() as int
            },
        )
    }

    /// A fresh renderer over a token stream: black canvas, both counters
    /// at zero, opaque white active color.
    pub fn new(cfg: RenderConfig, table: GlyphTable, tokens: Vec<BiOSToken>) -> (f: Frame)
        requires
            cfg.wf(),
            table.wf(),
        ensures
            f.wf(),
            f.token_index == 0,
            f.frame_index == 0,
            f.tokens@ == tokens@,
            f.cfg == cfg,
            f.table == table,
            f.current_color == spec_white(),
            f.img.pixels@ == spec_blank(cfg.width as int, cfg.height as int),
    {
        Frame {
            img: PixelBuffer::new_black(cfg.width, cfg.height),
            frame_index: 0,
            token_index: 0,
            tokens,
            current_color: Rgba { r: 255, g: 255, b: 255, a: 255 },
            cfg,
            table,
        }
    }

    /// Recomputes the canvas from scratch out of the consumed token
    /// prefix; the active color is re-derived in the same pass.
    pub fn render(&mut self)
        requires
            old(self).wf(),
        ensures
            final(self).wf(),
            final(self).tokens@ == old(self).tokens@,
            final(self).table == old(self).table,
            final(self).cfg == old(self).cfg,
            final(self).token_index == old(self).token_index,
            final(self).frame_index == old(self).frame_index,
            ({
                let out = spec_render(old(self).prefix(), old(self).table.entries@, old(self).cfg);
                final(self).img.pixels@ == out.0 && final(self).current_color == out.1
            }),
    {
        let (buf, col) = compose_frame(&self.tokens, self.token_index, &self.table, &self.cfg);
        self.img = buf;
        self.current_color = col;
    }

    /// One animation step: consumes the next token and returns the frames
    /// it emits, in order. A pause of `n` emits `n` identical frames (none
    /// for `n = 0`); every other token emits exactly one frame showing the
    /// prefix that now includes it. Past the last token, nothing happens.
    pub fn render_next_token(&mut self) -> (frames: Vec<PixelBuffer>)
        requires
            old(self).wf(),
            old(self).frame_index + spec_step_frames(
                toks_view(old(self).tokens@),
                old(self).token_index as int,
            ) <= usize::MAX,
        ensures
            final(self).wf(),
            final(self).tokens@ == old(self).tokens@,
            final(self).table == old(self).table,
            final(self).cfg == old(self).cfg,
            final(self).token_index == (if old(self).token_index < old(self).tokens@.len() {
                old(self).token_index + 1
            } else {
                old(self).token_index as int
            }),
            final(self).frame_index == old(self).frame_index + spec_step_frames(
                toks_view(old(self).tokens@),
                old(self).token_index as int,
            ),
            frames@.len() == spec_step_frames(
                toks_view(old(self).tokens@),
                old(self).token_index as int,
            ),
            ({
                let out = spec_render(
                    toks_view(old(self).tokens@).take(old(self).token_index + 1),
                    old(self).table.entries@,
                    old(self).cfg,
                );
                (forall|j: int|
                    0 <= j < frames@.len() ==> (#[trigger] frames@[j]).pixels@ == out.0
                        && frames@[j].width == old(self).cfg.width && frames@[j].height == old(
                        self,
                    ).cfg.height) && (frames@.len() > 0 ==> final(self).img.pixels@ == out.0
                    && final(self).current_color == out.1)
            }),
            frames@.len() == 0 ==> final(self).img == old(self).img && final(self).current_color
                == old(self).current_color,
    {
        let mut frames: Vec<PixelBuffer> = Vec::new();
        if self.token_index < self.tokens.len() {
            let pause: Option<usize> = match &self.tokens[self.token_index] {
                BiOSToken::Pause(n) => Some(*n),
                _ => None,
            };
            proof {
                assert(toks_view(old(self).tokens@)[old(self).token_index as int]
                    == old(self).tokens@[old(self).token_index as int]@);
            }
            self.token_index = self.token_index + 1;
            match pause {
                None => {
                    self.render();
                    frames.push(self.img.duplicate());
                    self.frame_index = self.frame_index + 1;
                },
                Some(n) => {
                    let ghost out = spec_render(
                        toks_view(old(self).tokens@).take(old(self).token_index + 1),
                        old(self).table.entries@,
                        old(self).cfg,
                    );
                    let mut t: usize = 0;
                    while t < n
                        invariant
                            self.wf(),
                            self.tokens@ == old(self).tokens@,
                            self.table == old(self).table,
                            self.cfg == old(self).cfg,
                            self.token_index == old(self).token_index + 1,
                            old(self).frame_index + n <= usize::MAX,
                            0 <= t <= n,
                            self.frame_index == old(self).frame_index + t,
                            frames@.len() == t,
                            out == spec_render(
                                toks_view(old(self).tokens@).take(old(self).token_index + 1),
                                old(self).table.entries@,
                                old(self).cfg,
                            ),
                            forall|j: int|
                                0 <= j < t ==> (#[trigger] frames@[j]).pixels@ == out.0
                                    && frames@[j].width == old(self).cfg.width
                                    && frames@[j].height == old(self).cfg.height,
                            t > 0 ==> self.img.pixels@ == out.0 && self.current_color == out.1,
                            t == 0 ==> self.img == old(self).img && self.current_color == old(
                                self,
                            ).current_color,
                        decreases n - t,
                    {
                        self.render();
                        frames.push(self.img.duplicate());
                        self.frame_index = self.frame_index + 1;
                        t += 1;
                    }
                },
            }
        }
        frames
    }

    /// The driving loop: exactly one step per token of the stream,
    /// whatever number of frames each step emits. Afterwards the cursor
    /// stands at the token count: the terminal state. Returns every
    /// emitted frame, in playback order.
    pub fn render_tokens(&mut self) -> (frames: Vec<PixelBuffer>)
        requires
            old(self).wf(),
            old(self).frame_index + spec_frames_from(
                toks_view(old(self).tokens@),
                old(self).token_index as int,
                old(self).table.entries@,
                old(self).cfg,
            ).len() <= usize::MAX,
        ensures
            final(self).wf(),
            final(self).tokens@ == old(self).tokens@,
            final(self).table == old(self).table,
            final(self).cfg == old(self).cfg,
            final(self).token_index == old(self).tokens@.len(),
            final(self).frame_index == old(self).frame_index + frames@.len(),
            frames_view(frames@) == spec_frames_from(
                toks_view(old(self).tokens@),
                old(self).token_index as int,
                old(self).table.entries@,
                old(self).cfg,
            ),
    {
        let ghost tv = toks_view(old(self).tokens@);
        let ghost entries = old(self).table.entries@;
        let ghost cfg0 = old(self).cfg;
        let ghost idx0 = old(self).token_index as int;
        let len = self.tokens.len();
        let mut frames: Vec<PixelBuffer> = Vec::new();
        let mut step: usize = 0;
        proof {
            assert(frames_view(frames@) + spec_frames_from(tv, idx0, entries, cfg0)
                =~= spec_frames_from(tv, idx0, entries, cfg0));
        }
        while step < len
            invariant
                self.wf(),
                self.tokens@ == old(self).tokens@,
                self.table == old(self).table,
                self.cfg == old(self).cfg,
                tv == toks_view(old(self).tokens@),
                entries == old(self).table.entries@,
                cfg0 == old(self).cfg,
                idx0 == old(self).token_index as int,
                len == old(self).tokens@.len(),
                0 <= step <= len,
                self.token_index as int == (if idx0 + step <= len {
                    idx0 + step
                } else {
                    len as int
                }),
                self.frame_index == old(self).frame_index + frames@.len(),
                self.frame_index + spec_frames_from(tv, self.token_index as int, entries, cfg0).len()
                    <= usize::MAX,
                frames_view(frames@) + spec_frames_from(tv, self.token_index as int, entries, cfg0)
                    == spec_frames_from(tv, idx0, entries, cfg0),
            decreases len - step,
        {
            let ghost cur = self.token_index as int;
            proof {
                if cur < len {
                    assert(spec_frames_from(tv, cur, entries, cfg0) == Seq::new(
                        spec_step_frames(tv, cur) as nat,
                        |i: int| spec_render(tv.take(cur + 1), entries, cfg0).0,
                    ) + spec_frames_from(tv, cur + 1, entries, cfg0));
                } else {
                    assert(spec_step_frames(tv, cur) == 0);
                }
            }
            let mut emitted = self.render_next_token();
            proof {
                let chunk = Seq::new(
                    spec_step_frames(tv, cur) as nat,
                    |i: int| spec_render(tv.take(cur + 1), entries, cfg0).0,
                );
                assert(frames_view(emitted@) =~= chunk);
                assert(frames_view(frames@ + emitted@) =~= frames_view(frames@) + frames_view(
                    emitted@,
                ));
                if cur >= len {
                    assert(frames_view(emitted@) =~= Seq::<Seq<Rgba>>::empty());
                    assert(frames_view(frames@ + emitted@) =~= frames_view(frames@));
                }
            }
            frames.append(&mut emitted);
            step += 1;
        }
        proof {
            assert(self.token_index as int == len as int);
            assert(spec_frames_from(tv, len as int, entries, cfg0) =~= Seq::<Seq<Rgba>>::empty());
            assert(frames_view(frames@) + Seq::<Seq<Rgba>>::empty() =~= frames_view(frames@));
        }
        frames
    }
}

} // verus!
