//! Text maps: a canvas of glyphs rendered row by row.
use vstd::prelude::*;
use vstd::string::*;

verus! {

// ── Text rendering ──────────────────────────────────────────────────────────

/// A glyph of the text maps.
pub open spec fn is_glyph(b: u8) -> bool {
    b == 32u8 || b == 83u8 || b == 46u8 || b == 75u8 || b == 76u8 || b == 87u8 || b == 68u8 || b == 88u8 || b == 66u8 || b == 69u8 || b == 36u8 || b == 35u8 || b == 43u8 || b == 79u8 || b == 126u8 || b == 86u8 || b == 67u8 || b == 63u8 || b == 64u8
}

/// The one-character string of glyph `b`.
pub fn glyph_text(b: u8) -> (r: &'static str)
    requires
        is_glyph(b),
    ensures
        r@ == seq![b as char],
{
    if b == 32u8 {
        proof {
            reveal_strlit(" ");
            assert(" "@ == seq![32u8 as char]);
        }
        " "
    } else if b == 83u8 {
        proof {
            reveal_strlit("S");
            assert("S"@ == seq![83u8 as char]);
        }
        "S"
    } else if b == 46u8 {
        proof {
            reveal_strlit(".");
            assert("."@ == seq![46u8 as char]);
        }
        "."
    } else if b == 75u8 {
        proof {
            reveal_strlit("K");
            assert("K"@ == seq![75u8 as char]);
        }
        "K"
    } else if b == 76u8 {
        proof {
            reveal_strlit("L");
            assert("L"@ == seq![76u8 as char]);
        }
        "L"
    } else if b == 87u8 {
        proof {
            reveal_strlit("W");
            assert("W"@ == seq![87u8 as char]);
        }
        "W"
    } else if b == 68u8 {
        proof {
            reveal_strlit("D");
            assert("D"@ == seq![68u8 as char]);
        }
        "D"
    } else if b == 88u8 {
        proof {
            reveal_strlit("X");
            assert("X"@ == seq![88u8 as char]);
        }
        "X"
    } else if b == 66u8 {
        proof {
            reveal_strlit("B");
            assert("B"@ == seq![66u8 as char]);
        }
        "B"
    } else if b == 69u8 {
        proof {
            reveal_strlit("E");
            assert("E"@ == seq![69u8 as char]);
        }
        "E"
    } else if b == 36u8 {
        proof {
            reveal_strlit("$");
            assert("$"@ == seq![36u8 as char]);
        }
        "$"
    } else if b == 35u8 {
        proof {
            reveal_strlit("#");
            assert("#"@ == seq![35u8 as char]);
        }
        "#"
    } else if b == 43u8 {
        proof {
            reveal_strlit("+");
            assert("+"@ == seq![43u8 as char]);
        }
        "+"
    } else if b == 79u8 {
        proof {
            reveal_strlit("O");
            assert("O"@ == seq![79u8 as char]);
        }
        "O"
    } else if b == 126u8 {
        proof {
            reveal_strlit("~");
            assert("~"@ == seq![126u8 as char]);
        }
        "~"
    } else if b == 86u8 {
        proof {
            reveal_strlit("V");
            assert("V"@ == seq![86u8 as char]);
        }
        "V"
    } else if b == 67u8 {
        proof {
            reveal_strlit("C");
            assert("C"@ == seq![67u8 as char]);
        }
        "C"
    } else if b == 63u8 {
        proof {
            reveal_strlit("?");
            assert("?"@ == seq![63u8 as char]);
        }
        "?"
    } else if b == 64u8 {
        proof {
            reveal_strlit("@");
            assert("@"@ == seq![64u8 as char]);
        }
        "@"
    } else {
        proof {
            reveal_strlit("@");
        }
        "@"
    }
}

/// Row `r` of a `w`-wide canvas.
pub open spec fn canvas_row(w: nat, canvas: Seq<u8>, r: int) -> Seq<char> {
    Seq::new(w, |c: int| canvas[r * w + c] as char)
}

/// The first `h` rows of a `w`-wide canvas, separated by line breaks.
pub open spec fn render(w: nat, h: nat, canvas: Seq<u8>) -> Seq<char>
    decreases h,
{
    if h == 0 {
        Seq::<char>::empty()
    } else if h == 1 {
        canvas_row(w, canvas, 0)
    } else {
        render(w, (h - 1) as nat, canvas) + seq!['\n'] + canvas_row(w, canvas, h - 1)
    }
}

/// Render a `w × h` canvas of glyphs (row-major) as text, one line per row.
pub fn render_canvas(w: usize, h: usize, canvas: &Vec<u8>) -> (r: String)
    requires
        canvas@.len() == w * h,
        forall|k: int| 0 <= k < canvas@.len() ==> is_glyph(#[trigger] canvas@[k]),
    ensures
        r@ == render(w as nat, h as nat, canvas@),
{
    let mut out = String::new();
    let total = canvas.len();
    let mut r: usize = 0;
    while r < h
        invariant
            r <= h,
            canvas@.len() == w * h,
            total == canvas@.len(),
            forall|k: int| 0 <= k < canvas@.len() ==> is_glyph(#[trigger] canvas@[k]),
            out@ == render(w as nat, r as nat, canvas@),
        decreases h - r,
    {
        let ghost before = out@;
        if r > 0 {
            proof {
                reveal_strlit("\n");
                assert("\n"@ == seq!['\n']);
            }
            out.append("\n");
        }
        let ghost mid = out@;
        let mut c: usize = 0;
        while c < w
            invariant
                c <= w,
                r < h,
                canvas@.len() == w * h,
                total == canvas@.len(),
                forall|k: int| 0 <= k < canvas@.len() ==> is_glyph(#[trigger] canvas@[k]),
                out@ == mid + canvas_row(w as nat, canvas@, r as int).take(c as int),
            decreases w - c,
        {
            proof {
                assert(r * w + c < w * h) by (nonlinear_arith)
                    requires r < h, c < w;
            }
            let b = canvas[r * w + c];
            out.append(glyph_text(b));
            proof {
                assert(canvas_row(w as nat, canvas@, r as int).take(c as int + 1) =~= canvas_row(w as nat, canvas@, r as int).take(c as int).push(b as char));
            }
            c = c + 1;
        }
        proof {
            assert(canvas_row(w as nat, canvas@, r as int).take(w as int) =~= canvas_row(w as nat, canvas@, r as int));
            if r == 0 {
                assert(render(w as nat, 1, canvas@) == canvas_row(w as nat, canvas@, 0));
                assert(out@ =~= render(w as nat, 1, canvas@));
            } else {
                assert(out@ =~= render(w as nat, (r + 1) as nat, canvas@));
            }
        }
        r = r + 1;
    }
    out
}

} // verus!
