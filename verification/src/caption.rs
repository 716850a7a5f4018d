//! Token prompts and display names of the nine captioned classes
//! `class = 3 * colour + shape`.
use vstd::prelude::*;
use vstd::string::*;

verus! {

/// The prompt "a photo of <colour> <shape>" as token ids: the three fixed
/// tokens 1, 2, 3, then the colour token (4 red, 5 green, 6 blue), then the
/// shape token (7 vertical bar, 8 horizontal bar, 9 block).
pub open spec fn prompt_tokens(class: nat) -> Seq<u32> {
    seq![1u32, 2u32, 3u32, (4 + class / 3) as u32, (7 + class % 3) as u32]
}

/// The token ids of the prompt of `class`.
pub fn prompt(class: usize) -> (p: [u32; 5])
    requires
        class < 9,
    ensures
        p@ == prompt_tokens(class as nat),
{
    let color = (class / 3) as u32;
    let shape = (class % 3) as u32;
    let p = [1u32, 2, 3, 4 + color, 7 + shape];
    assert(p@ =~= prompt_tokens(class as nat));
    p
}

/// Different classes get different prompts.
pub proof fn law_prompt_injective(a: nat, b: nat)
    requires
        a < 9,
        b < 9,
        prompt_tokens(a) == prompt_tokens(b),
    ensures
        a == b,
{
    assert(prompt_tokens(a)[3] == prompt_tokens(b)[3]);
    assert(prompt_tokens(a)[4] == prompt_tokens(b)[4]);
}

/// Name of a colour.
pub open spec fn colour_name(k: nat) -> Seq<char> {
    if k == 0 {
        "红"@
    } else if k == 1 {
        "绿"@
    } else {
        "蓝"@
    }
}

/// Name of a shape.
pub open spec fn shape_name(k: nat) -> Seq<char> {
    if k == 0 {
        "竖条"@
    } else if k == 1 {
        "横条"@
    } else {
        "方块"@
    }
}

/// Display name of a class: its colour name followed by its shape name.
pub open spec fn class_label(class: nat) -> Seq<char> {
    colour_name(class / 3) + shape_name(class % 3)
}

/// The display name of `class`.
pub fn class_name(class: usize) -> (s: String)
    requires
        class < 9,
    ensures
        s@ == colour_name((class / 3) as nat) + shape_name((class % 3) as nat),
        s@ == class_label(class as nat),
{
    let color = class / 3;
    let shape = class % 3;
    let mut s = if color == 0 {
        String::from_str("红")
    } else if color == 1 {
        String::from_str("绿")
    } else {
        String::from_str("蓝")
    };
    if shape == 0 {
        s.append("竖条");
    } else if shape == 1 {
        s.append("横条");
    } else {
        s.append("方块");
    }
    s
}

/// Class `3 * colour + shape` is prompted with the colour token `4 + colour`
/// and the shape token `7 + shape`, and named by that same colour and shape:
/// the prompt and the display name describe one and the same class.
pub proof fn law_prompt_and_name_agree(colour: nat, shape: nat)
    requires
        colour < 3,
        shape < 3,
    ensures
        prompt_tokens(3 * colour + shape) == seq![1u32, 2u32, 3u32, (4 + colour) as u32, (7 + shape) as u32],
        class_label(3 * colour + shape) == colour_name(colour) + shape_name(shape),
{
    let c = 3 * colour + shape;
    assert(c / 3 == colour && c % 3 == shape) by (nonlinear_arith)
        requires
            c == 3 * colour + shape,
            shape < 3,
    ;
    assert(prompt_tokens(c) =~= seq![1u32, 2u32, 3u32, (4 + colour) as u32, (7 + shape) as u32]);
}

} // verus!
