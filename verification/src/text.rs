use vstd::prelude::*;

verus! {

/// The character of a decimal digit.
pub open spec fn digit_char(d: nat) -> char {
    if d == 0 {
        '0'
    } else if d == 1 {
        '1'
    } else if d == 2 {
        '2'
    } else if d == 3 {
        '3'
    } else if d == 4 {
        '4'
    } else if d == 5 {
        '5'
    } else if d == 6 {
        '6'
    } else if d == 7 {
        '7'
    } else if d == 8 {
        '8'
    } else {
        '9'
    }
}

/// The decimal notation of a natural number, without leading zeros.
pub open spec fn decimal(n: nat) -> Seq<char>
    decreases n,
{
    if n < 10 {
        seq![digit_char(n)]
    } else {
        decimal(n / 10).push(digit_char(n % 10))
    }
}

fn digit_str(d: u64) -> (r: &'static str)
    requires
        d < 10,
    ensures
        r@ == seq![digit_char(d as nat)],
{
    proof {
        reveal_strlit("0");
        reveal_strlit("1");
        reveal_strlit("2");
        reveal_strlit("3");
        reveal_strlit("4");
        reveal_strlit("5");
        reveal_strlit("6");
        reveal_strlit("7");
        reveal_strlit("8");
        reveal_strlit("9");
    }
    if d == 0 {
        "0"
    } else if d == 1 {
        "1"
    } else if d == 2 {
        "2"
    } else if d == 3 {
        "3"
    } else if d == 4 {
        "4"
    } else if d == 5 {
        "5"
    } else if d == 6 {
        "6"
    } else if d == 7 {
        "7"
    } else if d == 8 {
        "8"
    } else {
        "9"
    }
}

/// Appends the decimal notation of `n` to `s`.
pub fn push_decimal(s: &mut String, n: u64)
    ensures
        final(s)@ == old(s)@ + decimal(n as nat),
    decreases n,
{
    if n < 10 {
        s.append(digit_str(n));
    } else {
        push_decimal(s, n / 10);
        s.append(digit_str(n % 10));
        assert(decimal(n as nat) == decimal((n / 10) as nat).push(digit_char((n % 10) as nat)));
    }
}

/// The decimal notation of `n`.
pub fn to_decimal(n: u64) -> (r: String)
    ensures
        r@ == decimal(n as nat),
{
    let mut s = String::new();
    push_decimal(&mut s, n);
    assert(s@ =~= decimal(n as nat));
    s
}

/// LaTeX that typesets `expr` as upright text.
pub fn text_latex(expr: &str) -> (r: String)
    ensures
        r@ == "\\text{"@ + expr@ + "}"@,
{
    let mut s = String::from_str("\\text{");
    s.append(expr);
    s.append("}");
    s
}

/// LaTeX that typesets `expr` as display-style mathematics.
pub fn maths_latex(expr: &str) -> (r: String)
    ensures
        r@ == "$\\displaystyle "@ + expr@ + "$"@,
{
    let mut s = String::from_str("$\\displaystyle ");
    s.append(expr);
    s.append("$");
    s
}

/// An image of a LaTeX formula, rasterized at `scale` dots per inch.
#[derive(Debug, Clone)]
pub struct LatexImage {
    pub scale: u32,
    pub expr: String,
}

/// The text of a standalone LaTeX document before the formula.
pub open spec fn latex_prefix() -> Seq<char> {
    "\n\\documentclass[border=1pt]{standalone}\n\\usepackage{amsmath}\n\\usepackage{xcolor}\n\\begin{document}\n$"@
}

/// The text of a standalone LaTeX document after the formula.
pub open spec fn latex_suffix() -> Seq<char> {
    "$\n\\end{document}\n"@
}

impl LatexImage {
    /// The standalone LaTeX document that typesets the formula in math mode.
    pub fn document(&self) -> (r: String)
        ensures
            r@ == latex_prefix() + self.expr@ + latex_suffix(),
    {
        let mut s = String::from_str(
            "\n\\documentclass[border=1pt]{standalone}\n\\usepackage{amsmath}\n\\usepackage{xcolor}\n\\begin{document}\n$",
        );
        s.append(self.expr.as_str());
        s.append("$\n\\end{document}\n");
        s
    }

    /// The resolution argument for the rasterizer: the scale in decimal.
    pub fn resolution_arg(&self) -> (r: String)
        ensures
            r@ == decimal(self.scale as nat),
    {
        to_decimal(self.scale as u64)
    }
}

/// The audio filter step for clip `i`: delay input `i + 1` by `delay` milliseconds on
/// both channels, naming the result `a{i}`.
pub open spec fn delay_step(i: nat, delay: nat) -> Seq<char> {
    "["@ + decimal(i + 1) + ":a]adelay="@ + decimal(delay) + "|"@ + decimal(delay) + "[a"@
        + decimal(i) + "];"@
}

/// The delay steps of the first `k` clips.
pub open spec fn delay_steps(delays: Seq<u64>, k: int) -> Seq<char>
    decreases k,
{
    if k <= 0 {
        Seq::empty()
    } else {
        delay_steps(delays, k - 1) + delay_step((k - 1) as nat, delays[k - 1] as nat)
    }
}

/// The labels `[a0][a1]...` of the first `k` delayed clips.
pub open spec fn mix_inputs(k: int) -> Seq<char>
    decreases k,
{
    if k <= 0 {
        Seq::empty()
    } else {
        mix_inputs(k - 1) + "[a"@ + decimal((k - 1) as nat) + "]"@
    }
}

/// The audio filter that delays every clip by its start time, mixes them, and pads
/// the mix with silence.
pub open spec fn audio_mix_filter_spec(delays: Seq<u64>) -> Seq<char> {
    delay_steps(delays, delays.len() as int) + mix_inputs(delays.len() as int) + "amix=inputs="@
        + decimal(delays.len()) + "[aout];[aout]apad[aout2]"@
}

/// The delay steps of the first `k` clips, one sequence per clip, in clip order.
pub open spec fn delay_step_prefix(delays: Seq<u64>, k: nat) -> Seq<Seq<char>> {
    Seq::new(k, |i: int| delay_step(i as nat, delays[i] as nat))
}

/// The label under which the delayed clip `i` enters the mix.
pub open spec fn mix_label(i: nat) -> Seq<char> {
    "[a"@ + decimal(i) + "]"@
}

/// The labels of the first `k` delayed clips, one per clip, in clip order.
pub open spec fn mix_labels(k: nat) -> Seq<Seq<char>> {
    Seq::new(k, |i: int| mix_label(i as nat))
}

proof fn lemma_delay_steps_flatten(delays: Seq<u64>, k: nat)
    requires
        k <= delays.len(),
    ensures
        delay_steps(delays, k as int) == delay_step_prefix(delays, k).flatten(),
    decreases k,
{
    if k == 0 {
        assert(delay_step_prefix(delays, 0) =~= Seq::<Seq<char>>::empty());
    } else {
        let j = (k - 1) as nat;
        lemma_delay_steps_flatten(delays, j);
        let step = delay_step(j, delays[j as int] as nat);
        assert(delay_step_prefix(delays, k) =~= delay_step_prefix(delays, j).push(step));
        delay_step_prefix(delays, j).lemma_flatten_push(step);
    }
}

proof fn lemma_mix_inputs_flatten(k: nat)
    ensures
        mix_inputs(k as int) == mix_labels(k).flatten(),
    decreases k,
{
    if k == 0 {
        assert(mix_labels(0) =~= Seq::<Seq<char>>::empty());
    } else {
        let j = (k - 1) as nat;
        lemma_mix_inputs_flatten(j);
        assert(mix_labels(k) =~= mix_labels(j).push(mix_label(j)));
        mix_labels(j).lemma_flatten_push(mix_label(j));
        assert(mix_inputs(k as int) =~= mix_inputs(j as int) + mix_label(j));
    }
}

/// The audio filter mixes every clip: it is the delay step of each clip in clip
/// order, then the labels `[a0]`, `[a1]`, ... of all the delayed clips, one per clip
/// and none left out, then an `amix` whose input count is the number of clips, then
/// the padding step.
pub proof fn lemma_audio_mix_mixes_every_clip(delays: Seq<u64>)
    ensures
        audio_mix_filter_spec(delays) == delay_step_prefix(delays, delays.len()).flatten()
            + mix_labels(delays.len()).flatten() + "amix=inputs="@ + decimal(delays.len())
            + "[aout];[aout]apad[aout2]"@,
        mix_labels(delays.len()).len() == delays.len(),
        forall|i: int|
            0 <= i < delays.len() ==> #[trigger] mix_labels(delays.len())[i] == mix_label(
                i as nat,
            ),
{
    lemma_delay_steps_flatten(delays, delays.len());
    lemma_mix_inputs_flatten(delays.len());
}

/// Builds the audio filter for clips that start at the given delays (milliseconds).
pub fn audio_mix_filter(delays: &Vec<u64>) -> (r: String)
    requires
        delays@.len() < u64::MAX,
    ensures
        r@ == audio_mix_filter_spec(delays@),
        r@ == delay_step_prefix(delays@, delays@.len()).flatten() + mix_labels(
            delays@.len(),
        ).flatten() + "amix=inputs="@ + decimal(delays@.len()) + "[aout];[aout]apad[aout2]"@,
{
    proof {
        lemma_audio_mix_mixes_every_clip(delays@);
    }
    let n = delays.len();
    let mut s = String::new();
    let mut i: usize = 0;
    while i < n
        invariant
            n == delays@.len(),
            n < u64::MAX,
            0 <= i <= n,
            s@ == delay_steps(delays@, i as int),
        decreases n - i,
    {
        let ghost before = s@;
        let d = delays[i];
        s.append("[");
        push_decimal(&mut s, (i + 1) as u64);
        s.append(":a]adelay=");
        push_decimal(&mut s, d);
        s.append("|");
        push_decimal(&mut s, d);
        s.append("[a");
        push_decimal(&mut s, i as u64);
        s.append("];");
        assert(s@ =~= before + delay_step(i as nat, d as nat));
        i = i + 1;
    }
    let mut i: usize = 0;
    let ghost steps = s@;
    while i < n
        invariant
            n == delays@.len(),
            n < u64::MAX,
            0 <= i <= n,
            steps == delay_steps(delays@, n as int),
            s@ == steps + mix_inputs(i as int),
        decreases n - i,
    {
        let ghost before = s@;
        s.append("[a");
        push_decimal(&mut s, i as u64);
        s.append("]");
        assert(s@ =~= before + "[a"@ + decimal(i as nat) + "]"@);
        i = i + 1;
        assert(s@ =~= steps + mix_inputs(i as int));
    }
    s.append("amix=inputs=");
    push_decimal(&mut s, n as u64);
    s.append("[aout];[aout]apad[aout2]");
    s
}

/// The number of times `c` occurs among the first `k` characters of `s`.
pub open spec fn count_char(s: Seq<char>, c: char, k: int) -> nat
    decreases k,
{
    if k <= 0 {
        0
    } else {
        count_char(s, c, k - 1) + if s[k - 1] == c {
            1nat
        } else {
            0nat
        }
    }
}

/// Splits a ratio written `num/den` at its slash: `Some` exactly when the text has
/// one slash, with the text before and after it.
pub fn split_ratio(s: &str) -> (r: Option<(&str, &str)>)
    ensures
        (count_char(s@, '/', s@.len() as int) == 1) <==> r is Some,
        r matches Some((a, b)) ==> exists|i: int|
            0 <= i < s@.len() && s@[i] == '/' && a@ == s@.subrange(0, i) && b@ == s@.subrange(
                i + 1,
                s@.len() as int,
            ),
{
    let n = s.unicode_len();
    let mut count: usize = 0;
    let mut at: usize = 0;
    let mut k: usize = 0;
    while k < n
        invariant
            n == s@.len(),
            0 <= k <= n,
            count <= k,
            count == count_char(s@, '/', k as int),
            count >= 1 ==> at < k && s@[at as int] == '/',
        decreases n - k,
    {
        let c = s.get_char(k);
        if c == '/' {
            count = count + 1;
            at = k;
        }
        k = k + 1;
    }
    if count != 1 {
        return None;
    }
    let a = s.substring_char(0, at);
    let b = s.substring_char(at + 1, n);
    Some((a, b))
}

/// The name of the `n`-th file of a cache: `n` in decimal, a dot, the extension.
pub fn cache_file_name(n: u64, extension: &str) -> (r: String)
    ensures
        r@ == decimal(n as nat) + "."@ + extension@,
{
    let mut s = to_decimal(n);
    s.append(".");
    s.append(extension);
    s
}

/// The number of bytes of one raw RGB frame (three bytes a pixel), if it fits in a
/// `usize`.
pub fn rgb24_frame_len(width: u32, height: u32) -> (r: Option<usize>)
    ensures
        width as int * height as int * 3 <= usize::MAX ==> r == Some((width as int * height as int * 3) as usize),
        width as int * height as int * 3 > usize::MAX ==> r is None,
{
    let w = width as usize;
    let h = height as usize;
    match w.checked_mul(h) {
        None => {
            assert(width as int * height as int * 3 > usize::MAX) by (nonlinear_arith)
                requires
                    width as int * height as int > usize::MAX,
            ;
            None
        },
        Some(wh) => match wh.checked_mul(3) {
            None => None,
            Some(x) => Some(x),
        },
    }
}


/// The texts of a list of strings.
pub open spec fn texts(v: Seq<String>) -> Seq<Seq<char>> {
    v.map_values(|s: String| s@)
}

fn push_text(v: &mut Vec<String>, s: &str)
    ensures
        texts(final(v)@) == texts(old(v)@).push(s@),
{
    v.push(String::from_str(s));
    assert(texts(v@) =~= texts(old(v)@).push(s@));
}

/// `-i` and the path of each of the first `k` audio clips.
pub open spec fn clip_inputs(paths: Seq<Seq<char>>, k: int) -> Seq<Seq<char>>
    decreases k,
{
    if k <= 0 {
        Seq::empty()
    } else {
        clip_inputs(paths, k - 1) + seq!["-i"@, paths[k - 1]]
    }
}

/// The arguments of ffmpeg that join the listed frames into a video at `fps` frames a
/// second, mix in the audio clips (each delayed by its start in milliseconds), scale
/// to `width` by `height` and write `out_path`.
pub open spec fn video_args_spec(
    fps: Seq<char>,
    list_path: Seq<char>,
    clip_paths: Seq<Seq<char>>,
    delays: Seq<u64>,
    width: u32,
    height: u32,
    out_path: Seq<char>,
) -> Seq<Seq<char>> {
    seq!["-f"@, "concat"@, "-safe"@, "0"@, "-r"@, fps, "-i"@, list_path] + (if clip_paths.len()
        == 0 {
        Seq::empty()
    } else {
        clip_inputs(clip_paths, clip_paths.len() as int) + seq![
            "-filter_complex"@,
            audio_mix_filter_spec(delays),
            "-map"@,
            "0:v"@,
            "-map"@,
            "[aout2]"@,
            "-shortest"@,
        ]
    }) + seq![
        "-vf"@,
        "scale="@ + decimal(width as nat) + ":"@ + decimal(height as nat),
        "-c:v"@,
        "libx264"@,
        "-c:a"@,
        "mp3"@,
        "-pix_fmt"@,
        "yuv420p"@,
        "-y"@,
        out_path,
    ]
}

/// Builds the ffmpeg arguments described by `video_args_spec`; `delays[k]` is the
/// start of clip `k`.
pub fn video_args(
    fps: &str,
    list_path: &str,
    clip_paths: &Vec<String>,
    delays: &Vec<u64>,
    width: u32,
    height: u32,
    out_path: &str,
) -> (r: Vec<String>)
    requires
        clip_paths@.len() == delays@.len(),
        delays@.len() < u64::MAX,
    ensures
        texts(r@) == video_args_spec(
            fps@,
            list_path@,
            texts(clip_paths@),
            delays@,
            width,
            height,
            out_path@,
        ),
{
    let mut v: Vec<String> = Vec::new();
    push_text(&mut v, "-f");
    push_text(&mut v, "concat");
    push_text(&mut v, "-safe");
    push_text(&mut v, "0");
    push_text(&mut v, "-r");
    push_text(&mut v, fps);
    push_text(&mut v, "-i");
    push_text(&mut v, list_path);
    let ghost head = texts(v@);
    assert(head =~= seq!["-f"@, "concat"@, "-safe"@, "0"@, "-r"@, fps@, "-i"@, list_path@]);
    let n = clip_paths.len();
    let ghost paths = texts(clip_paths@);
    if n > 0 {
        let mut k: usize = 0;
        assert(head + clip_inputs(paths, 0) =~= head);
        while k < n
            invariant
                n == clip_paths@.len(),
                paths == texts(clip_paths@),
                0 <= k <= n,
                texts(v@) == head + clip_inputs(paths, k as int),
            decreases n - k,
        {
            push_text(&mut v, "-i");
            push_text(&mut v, clip_paths[k].as_str());
            k = k + 1;
            assert(texts(v@) =~= head + clip_inputs(paths, k as int));
        }
        let filter = audio_mix_filter(delays);
        push_text(&mut v, "-filter_complex");
        push_text(&mut v, filter.as_str());
        push_text(&mut v, "-map");
        push_text(&mut v, "0:v");
        push_text(&mut v, "-map");
        push_text(&mut v, "[aout2]");
        push_text(&mut v, "-shortest");
    }
    let ghost middle = texts(v@);
    assert(middle =~= head + (if paths.len() == 0 {
        Seq::empty()
    } else {
        clip_inputs(paths, paths.len() as int) + seq![
            "-filter_complex"@,
            audio_mix_filter_spec(delays@),
            "-map"@,
            "0:v"@,
            "-map"@,
            "[aout2]"@,
            "-shortest"@,
        ]
    }));
    let mut scale = String::from_str("scale=");
    push_decimal(&mut scale, width as u64);
    scale.append(":");
    push_decimal(&mut scale, height as u64);
    push_text(&mut v, "-vf");
    push_text(&mut v, scale.as_str());
    push_text(&mut v, "-c:v");
    push_text(&mut v, "libx264");
    push_text(&mut v, "-c:a");
    push_text(&mut v, "mp3");
    push_text(&mut v, "-pix_fmt");
    push_text(&mut v, "yuv420p");
    push_text(&mut v, "-y");
    push_text(&mut v, out_path);
    assert(texts(v@) =~= video_args_spec(
        fps@,
        list_path@,
        paths,
        delays@,
        width,
        height,
        out_path@,
    ));
    v
}

} // verus!
