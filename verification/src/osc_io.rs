//! OSC output: tempo, beats, intensity, genre and palette for other tools to follow.
//!
//! Addresses and arguments:
//! - `/hue2/bpm`: the tempo as a float
//! - `/hue2/beat`: the name of the band and the strength as a float, for each beat
//! - `/hue2/intensity`: the loudness envelope as a float, 0 to 1
//! - `/hue2/genre`: the identifier of the genre
//! - `/hue2/palette`: the name of the palette and the hexadecimal texts of its colours
use vstd::prelude::*;
use vstd::string::*;

use crate::core_types::{Band, Color, Palette, PaletteModel};
use crate::single::Single;
use crate::text::labelled;

verus! {

#[derive(Debug)]
pub enum OscError {
    Io(String),
    Encode(String),
}

impl OscError {
    /// The error in words.
    pub open spec fn description(self) -> Seq<char> {
        match self {
            OscError::Io(s) => "io error: "@ + s@,
            OscError::Encode(s) => "osc encode error: "@ + s@,
        }
    }

    pub fn to_text(&self) -> (s: String)
        ensures
            s@ == self.description(),
    {
        match self {
            OscError::Io(e) => labelled("io error: ", e.as_str()),
            OscError::Encode(e) => labelled("osc encode error: ", e.as_str()),
        }
    }
}

/// An argument of a message.
#[derive(Debug)]
pub enum OscArg {
    Text(String),
    Float(Single),
}

/// What an argument is.
pub enum OscArgModel {
    Text(Seq<char>),
    Float(Single),
}

impl View for OscArg {
    type V = OscArgModel;

    open spec fn view(&self) -> OscArgModel {
        match self {
            OscArg::Text(s) => OscArgModel::Text(s@),
            OscArg::Float(x) => OscArgModel::Float(*x),
        }
    }
}

/// A message to an address.
#[derive(Debug)]
pub struct OscMessage {
    pub addr: String,
    pub args: Vec<OscArg>,
}

/// What a message is.
pub struct OscModel {
    pub addr: Seq<char>,
    pub args: Seq<OscArgModel>,
}

impl View for OscMessage {
    type V = OscModel;

    open spec fn view(&self) -> OscModel {
        OscModel { addr: self.addr@, args: self.args@.map_values(|a: OscArg| a@) }
    }
}

/// Bytes with one to four zeros behind them, so that their number is a multiple of four.
pub open spec fn padded(b: Seq<u8>) -> Seq<u8> {
    b + Seq::new((4 - b.len() % 4) as nat, |i: int| 0u8)
}

/// `rosc::encoder::encode_string`: the bytes of the text with one to four zeros behind them, so
/// that their number is a multiple of four.
#[verifier::external_body]
fn osc_string(s: &str) -> (v: Vec<u8>)
    ensures
        v@ == padded(s.spec_bytes()),
{
    rosc::encoder::encode_string(s)
}

/// The four bytes of a float, the highest first.
pub open spec fn float_bytes(x: Single) -> Seq<u8> {
    seq![
        (x.bits / 0x100_0000) as u8,
        (x.bits / 0x1_0000 % 0x100) as u8,
        (x.bits / 0x100 % 0x100) as u8,
        (x.bits % 0x100) as u8,
    ]
}

/// The letter of the type of an argument.
pub open spec fn type_tag(a: OscArgModel) -> char {
    match a {
        OscArgModel::Text(_) => 's',
        OscArgModel::Float(_) => 'f',
    }
}

/// A comma and the letters of the types of all arguments.
pub open spec fn type_tags(args: Seq<OscArgModel>) -> Seq<char>
    decreases args.len(),
{
    if args.len() == 0 {
        seq![',']
    } else {
        type_tags(args.drop_last()).push(type_tag(args.last()))
    }
}

pub open spec fn arg_bytes(a: OscArgModel) -> Seq<u8> {
    match a {
        OscArgModel::Text(s) => padded(vstd::utf8::encode_utf8(s)),
        OscArgModel::Float(x) => float_bytes(x),
    }
}

/// The bytes of arguments, one after the other.
pub open spec fn args_bytes(args: Seq<OscArgModel>) -> Seq<u8>
    decreases args.len(),
{
    if args.len() == 0 {
        Seq::empty()
    } else {
        args_bytes(args.drop_last()) + arg_bytes(args.last())
    }
}

/// A message on the wire: the address, the types of the arguments, and the arguments.
pub open spec fn message_bytes(m: OscModel) -> Seq<u8> {
    padded(vstd::utf8::encode_utf8(m.addr)) + padded(vstd::utf8::encode_utf8(type_tags(m.args)))
        + args_bytes(m.args)
}

/// Appends bytes to others.
fn extend(out: &mut Vec<u8>, more: &Vec<u8>)
    ensures
        final(out)@ == old(out)@ + more@,
{
    let ghost before = out@;
    let mut i: usize = 0;
    assert(before + more@.take(0) =~= before);
    while i < more.len()
        invariant
            i <= more@.len(),
            out@ == before + more@.take(i as int),
        decreases more@.len() - i,
    {
        out.push(more[i]);
        i = i + 1;
        assert(out@ =~= before + more@.take(i as int));
    }
    assert(more@.take(i as int) =~= more@);
}

fn push_float(out: &mut Vec<u8>, x: Single)
    ensures
        final(out)@ == old(out)@ + float_bytes(x),
{
    out.push((x.bits / 0x100_0000) as u8);
    out.push((x.bits / 0x1_0000 % 0x100) as u8);
    out.push((x.bits / 0x100 % 0x100) as u8);
    out.push((x.bits % 0x100) as u8);
    assert(out@ =~= old(out)@ + float_bytes(x));
}

/// Arguments that are texts.
pub open spec fn text_args(texts: Seq<String>) -> Seq<OscArgModel> {
    texts.map_values(|t: String| OscArgModel::Text(t@))
}

/// The message to an address with texts.
pub open spec fn text_message(addr: Seq<char>, texts: Seq<String>) -> OscModel {
    OscModel { addr, args: text_args(texts) }
}

/// `rosc::encoder::encode` of a message whose arguments are texts: it gives the address, the types
/// of the arguments and the arguments, each padded, and it does not fail.
#[verifier::external_body]
fn encode_texts(addr: &str, texts: &Vec<String>) -> (r: Result<Vec<u8>, String>)
    ensures
        r is Ok,
        r->Ok_0@ == message_bytes(text_message(addr@, texts@)),
{
    let args = texts.iter().map(|t| rosc::OscType::String(t.clone())).collect();
    let message = rosc::OscMessage { addr: addr.to_string(), args };
    rosc::encoder::encode(&rosc::OscPacket::Message(message)).map_err(|e| e.to_string())
}

/// The texts of a message, where it has no other arguments.
fn only_texts(args: &Vec<OscArg>) -> (r: Option<Vec<String>>)
    ensures
        r matches Some(texts) ==> text_args(texts@) == args@.map_values(|a: OscArg| a@),
        r is None ==> exists|i: int| 0 <= i < args@.len() && (#[trigger] args@[i]) is Float,
{
    let mut texts: Vec<String> = Vec::new();
    let mut i: usize = 0;
    while i < args.len()
        invariant
            i <= args@.len(),
            texts@.len() == i,
            forall|k: int| 0 <= k < i ==> (#[trigger] args@[k])@ == OscArgModel::Text(texts@[k]@),
        decreases args@.len() - i,
    {
        match &args[i] {
            OscArg::Text(s) => {
                texts.push(s.clone());
            },
            OscArg::Float(_) => {
                return None;
            },
        }
        i = i + 1;
    }
    assert(text_args(texts@) =~= args@.map_values(|a: OscArg| a@));
    Some(texts)
}

/// The bytes of a message.
pub fn encode(m: &OscMessage) -> (r: Result<Vec<u8>, OscError>)
    ensures
        r matches Ok(out) && out@ == message_bytes(m@),
{
    match only_texts(&m.args) {
        Some(texts) => match encode_texts(m.addr.as_str(), &texts) {
            Ok(out) => Ok(out),
            Err(e) => Err(OscError::Encode(e)),
        },
        None => Ok(encode_floats(m)),
    }
}

/// The bytes of a message with floats, which are laid out here.
fn encode_floats(m: &OscMessage) -> (out: Vec<u8>)
    ensures
        out@ == message_bytes(m@),
{
    let ghost args = m@.args;
    let mut tags = String::new();
    proof {
        reveal_strlit(",");
        reveal_strlit("s");
        reveal_strlit("f");
    }
    tags.append(",");
    let mut i: usize = 0;
    assert(args.take(0) =~= Seq::<OscArgModel>::empty());
    assert(tags@ =~= seq![',']);
    while i < m.args.len()
        invariant
            i <= m.args@.len(),
            args == m@.args,
            tags@ == type_tags(args.take(i as int)),
        decreases m.args@.len() - i,
    {
        proof {
            reveal_strlit("s");
            reveal_strlit("f");
            assert(args.take(i + 1).drop_last() =~= args.take(i as int));
            assert(args.take(i + 1).last() == m.args@[i as int]@);
        }
        let ghost before = tags@;
        match &m.args[i] {
            OscArg::Text(_) => {
                tags.append("s");
                assert(tags@ =~= before.push('s'));
            },
            OscArg::Float(_) => {
                tags.append("f");
                assert(tags@ =~= before.push('f'));
            },
        }
        i = i + 1;
    }
    assert(args.take(i as int) =~= args);
    let mut out = osc_string(m.addr.as_str());
    extend(&mut out, &osc_string(tags.as_str()));
    let ghost head = out@;
    let mut k: usize = 0;
    assert(args.take(0) =~= Seq::<OscArgModel>::empty());
    assert(head + args_bytes(args.take(0)) =~= head);
    while k < m.args.len()
        invariant
            k <= m.args@.len(),
            args == m@.args,
            out@ == head + args_bytes(args.take(k as int)),
        decreases m.args@.len() - k,
    {
        proof {
            assert(args.take(k + 1).drop_last() =~= args.take(k as int));
            assert(args.take(k + 1).last() == m.args@[k as int]@);
        }
        match &m.args[k] {
            OscArg::Text(s) => {
                extend(&mut out, &osc_string(s.as_str()));
            },
            OscArg::Float(x) => {
                push_float(&mut out, *x);
            },
        }
        assert(out@ =~= head + args_bytes(args.take(k + 1)));
        k = k + 1;
    }
    assert(args.take(k as int) =~= args);
    out
}

/// The name of a band.
pub open spec fn name_of(band: Band) -> Seq<char> {
    match band {
        Band::Low => "low"@,
        Band::LowMid => "low_mid"@,
        Band::HighMid => "high_mid"@,
        Band::High => "high"@,
    }
}

/// The name of a band.
pub fn band_name(band: Band) -> (s: &'static str)
    ensures
        s@ == name_of(band),
{
    match band {
        Band::Low => "low",
        Band::LowMid => "low_mid",
        Band::HighMid => "high_mid",
        Band::High => "high",
    }
}

/// The message with one float.
fn float_message(addr: &str, x: Single) -> (m: OscMessage)
    ensures
        m@ == (OscModel { addr: addr@, args: seq![OscArgModel::Float(x)] }),
{
    let m = OscMessage { addr: addr.to_owned(), args: vec![OscArg::Float(x)] };
    assert(m@.args =~= seq![OscArgModel::Float(x)]);
    m
}

/// The message of a tempo.
pub fn bpm_message(bpm: Single) -> (m: OscMessage)
    ensures
        m@ == (OscModel { addr: "/hue2/bpm"@, args: seq![OscArgModel::Float(bpm)] }),
{
    float_message("/hue2/bpm", bpm)
}

/// The message of a beat.
pub fn beat_message(band: Band, strength: Single) -> (m: OscMessage)
    ensures
        m@ == (OscModel {
            addr: "/hue2/beat"@,
            args: seq![OscArgModel::Text(name_of(band)), OscArgModel::Float(strength)],
        }),
{
    let m = OscMessage {
        addr: "/hue2/beat".to_owned(),
        args: vec![OscArg::Text(band_name(band).to_owned()), OscArg::Float(strength)],
    };
    assert(m@.args =~= seq![OscArgModel::Text(name_of(band)), OscArgModel::Float(strength)]);
    m
}

/// The message of an intensity.
pub fn intensity_message(intensity: Single) -> (m: OscMessage)
    ensures
        m@ == (OscModel { addr: "/hue2/intensity"@, args: seq![OscArgModel::Float(intensity)] }),
{
    float_message("/hue2/intensity", intensity)
}

/// The message of a genre.
pub fn genre_message(genre_id: &str) -> (m: OscMessage)
    ensures
        m@ == (OscModel { addr: "/hue2/genre"@, args: seq![OscArgModel::Text(genre_id@)] }),
{
    let m = OscMessage {
        addr: "/hue2/genre".to_owned(),
        args: vec![OscArg::Text(genre_id.to_owned())],
    };
    assert(m@.args =~= seq![OscArgModel::Text(genre_id@)]);
    m
}

/// The arguments of a palette: its name and the texts of its colours.
pub open spec fn palette_args(p: PaletteModel) -> Seq<OscArgModel> {
    seq![OscArgModel::Text(p.name)] + p.colors.map_values(
        |c: Color| OscArgModel::Text(c.text()),
    )
}

/// The message of a palette.
pub fn palette_message(palette: &Palette) -> (m: OscMessage)
    ensures
        m@ == (OscModel { addr: "/hue2/palette"@, args: palette_args(palette@) }),
{
    let ghost model = palette_args(palette@);
    let mut args: Vec<OscArg> = vec![OscArg::Text(palette.name.clone())];
    let mut i: usize = 0;
    while i < palette.colors.len()
        invariant
            i <= palette.colors@.len(),
            model == palette_args(palette@),
            args@.len() == i + 1,
            forall|k: int| 0 <= k <= i ==> (#[trigger] args@[k])@ == model[k],
        decreases palette.colors@.len() - i,
    {
        let h = palette.colors[i].to_hex();
        args.push(OscArg::Text(h));
        i = i + 1;
    }
    let m = OscMessage { addr: "/hue2/palette".to_owned(), args };
    assert(m@.args =~= model);
    m
}

/// A message is a multiple of four bytes long.
pub proof fn lemma_aligned(m: OscModel)
    ensures
        message_bytes(m).len() % 4 == 0,
{
    lemma_args_aligned(m.args);
    lemma_padded(vstd::utf8::encode_utf8(m.addr));
    lemma_padded(vstd::utf8::encode_utf8(type_tags(m.args)));
}

proof fn lemma_padded(b: Seq<u8>)
    ensures
        padded(b).len() % 4 == 0,
{
}

proof fn lemma_args_aligned(args: Seq<OscArgModel>)
    ensures
        args_bytes(args).len() % 4 == 0,
    decreases args.len(),
{
    if args.len() > 0 {
        lemma_args_aligned(args.drop_last());
        match args.last() {
            OscArgModel::Text(s) => {
                lemma_padded(vstd::utf8::encode_utf8(s));
            },
            OscArgModel::Float(_) => {},
        }
    }
}

/// No byte is zero.
pub open spec fn no_zeros(b: Seq<u8>) -> bool {
    forall|i: int| 0 <= i < b.len() ==> #[trigger] b[i] != 0
}

/// Padded bytes without zeros among them can be told from what follows.
proof fn lemma_padding_ends(a: Seq<u8>, x: Seq<u8>, b: Seq<u8>, y: Seq<u8>)
    requires
        no_zeros(a),
        no_zeros(b),
        padded(a) + x == padded(b) + y,
    ensures
        a == b,
        x == y,
{
    let (l, r) = (padded(a) + x, padded(b) + y);
    if a.len() < b.len() {
        assert(l[a.len() as int] == 0 && r[a.len() as int] == b[a.len() as int]);
    }
    if b.len() < a.len() {
        assert(r[b.len() as int] == 0 && l[b.len() as int] == a[b.len() as int]);
    }
    assert forall|i: int| 0 <= i < a.len() implies a[i] == b[i] by {
        assert(l[i] == a[i] && r[i] == b[i]);
    }
    assert(a =~= b);
    let n = padded(a).len() as int;
    assert(x =~= l.skip(n));
    assert(y =~= r.skip(n));
}

/// Arguments on the wire begin with the first one.
proof fn lemma_args_first(args: Seq<OscArgModel>)
    requires
        args.len() > 0,
    ensures
        args_bytes(args) == arg_bytes(args[0]) + args_bytes(args.skip(1)),
    decreases args.len(),
{
    if args.len() == 1 {
        assert(args.drop_last() =~= Seq::<OscArgModel>::empty());
        assert(args.skip(1) =~= Seq::<OscArgModel>::empty());
        assert(args_bytes(args) =~= arg_bytes(args[0]) + args_bytes(args.skip(1)));
    } else {
        lemma_args_first(args.drop_last());
        assert(args.drop_last().skip(1) =~= args.skip(1).drop_last());
        assert(args_bytes(args) =~= arg_bytes(args[0]) + args_bytes(args.skip(1)));
    }
}

/// A text without zeros is known by its bytes.
proof fn lemma_text_known(s: Seq<char>, t: Seq<char>)
    requires
        vstd::utf8::encode_utf8(s) == vstd::utf8::encode_utf8(t),
    ensures
        s == t,
{
    vstd::utf8::encode_utf8_decode_utf8(s);
    vstd::utf8::encode_utf8_decode_utf8(t);
}

/// An argument has no text with a zero byte.
pub open spec fn clean(a: OscArgModel) -> bool {
    a matches OscArgModel::Text(s) ==> no_zeros(vstd::utf8::encode_utf8(s))
}

/// A number at the front is known by its bytes, and so is what follows it.
#[verifier::spinoff_prover]
proof fn lemma_float_known(u: Single, x: Seq<u8>, v: Single, y: Seq<u8>)
    requires
        float_bytes(u) + x == float_bytes(v) + y,
    ensures
        u == v,
        x == y,
{
    let (l, r) = (float_bytes(u) + x, float_bytes(v) + y);
    assert(l[0] == float_bytes(u)[0] && r[0] == float_bytes(v)[0]);
    assert(l[1] == float_bytes(u)[1] && r[1] == float_bytes(v)[1]);
    assert(l[2] == float_bytes(u)[2] && r[2] == float_bytes(v)[2]);
    assert(l[3] == float_bytes(u)[3] && r[3] == float_bytes(v)[3]);
    assert(u.bits == v.bits);
    assert(x =~= l.skip(4));
    assert(y =~= r.skip(4));
}

/// An argument of a known type at the front is known by its bytes, and so is what follows it.
#[verifier::spinoff_prover]
proof fn lemma_arg_known(a: OscArgModel, x: Seq<u8>, b: OscArgModel, y: Seq<u8>)
    requires
        clean(a),
        clean(b),
        type_tag(a) == type_tag(b),
        arg_bytes(a) + x == arg_bytes(b) + y,
    ensures
        a == b,
        x == y,
{
    match (a, b) {
        (OscArgModel::Text(s), OscArgModel::Text(t)) => {
            lemma_padding_ends(vstd::utf8::encode_utf8(s), x, vstd::utf8::encode_utf8(t), y);
            lemma_text_known(s, t);
        },
        (OscArgModel::Float(u), OscArgModel::Float(v)) => {
            lemma_float_known(u, x, v, y);
        },
        _ => {},
    }
}

/// Arguments of known types are known by their bytes.
#[verifier::spinoff_prover]
proof fn lemma_args_known(a: Seq<OscArgModel>, b: Seq<OscArgModel>)
    requires
        a.len() == b.len(),
        forall|i: int| 0 <= i < a.len() ==> clean(#[trigger] a[i]),
        forall|i: int| 0 <= i < b.len() ==> clean(#[trigger] b[i]),
        forall|i: int| 0 <= i < a.len() ==> type_tag(#[trigger] a[i]) == type_tag(b[i]),
        args_bytes(a) == args_bytes(b),
    ensures
        a == b,
    decreases a.len(),
{
    if a.len() == 0 {
        assert(a =~= b);
    } else {
        lemma_args_first(a);
        lemma_args_first(b);
        lemma_arg_known(a[0], args_bytes(a.skip(1)), b[0], args_bytes(b.skip(1)));
        assert forall|i: int| 0 <= i < a.skip(1).len() implies type_tag(#[trigger] a.skip(1)[i])
            == type_tag(b.skip(1)[i]) by {
            assert(a.skip(1)[i] == a[i + 1] && b.skip(1)[i] == b[i + 1]);
        }
        lemma_args_known(a.skip(1), b.skip(1));
        assert(a =~= seq![a[0]] + a.skip(1));
        assert(b =~= seq![b[0]] + b.skip(1));
    }
}

/// The letters of the types.
proof fn lemma_tags(args: Seq<OscArgModel>)
    ensures
        type_tags(args).len() == args.len() + 1,
        vstd::utf8::is_ascii_chars(type_tags(args)),
        forall|i: int| 0 <= i <= args.len() ==> #[trigger] type_tags(args)[i] != '\0',
        forall|i: int| 0 <= i < args.len() ==> type_tags(args)[i + 1] == type_tag(#[trigger] args[i]),
    decreases args.len(),
{
    if args.len() > 0 {
        lemma_tags(args.drop_last());
        assert forall|i: int| 0 <= i < args.len() implies type_tags(args)[i + 1] == type_tag(
            #[trigger] args[i],
        ) by {
            if i < args.len() - 1 {
                assert(args.drop_last()[i] == args[i]);
            }
        }
    }
}

/// Messages whose texts have no zero bytes are known by their bytes: two that give the same bytes
/// are the same message.
pub proof fn lemma_message_known(m: OscModel, n: OscModel)
    requires
        no_zeros(vstd::utf8::encode_utf8(m.addr)),
        no_zeros(vstd::utf8::encode_utf8(n.addr)),
        forall|i: int| 0 <= i < m.args.len() ==> clean(#[trigger] m.args[i]),
        forall|i: int| 0 <= i < n.args.len() ==> clean(#[trigger] n.args[i]),
        message_bytes(m) == message_bytes(n),
    ensures
        m == n,
{
    let (s, t) = (type_tags(m.args), type_tags(n.args));
    let (a, b) = (vstd::utf8::encode_utf8(m.addr), vstd::utf8::encode_utf8(n.addr));
    let (c, d) = (vstd::utf8::encode_utf8(s), vstd::utf8::encode_utf8(t));
    let (x, y) = (args_bytes(m.args), args_bytes(n.args));
    lemma_tags(m.args);
    lemma_tags(n.args);
    vstd::utf8::is_ascii_chars_encode_utf8(s);
    vstd::utf8::is_ascii_chars_encode_utf8(t);
    assert(padded(a) + padded(c) + x =~= padded(a) + (padded(c) + x));
    assert(padded(b) + padded(d) + y =~= padded(b) + (padded(d) + y));
    lemma_padding_ends(a, padded(c) + x, b, padded(d) + y);
    lemma_text_known(m.addr, n.addr);
    assert(no_zeros(c) && no_zeros(d));
    lemma_padding_ends(c, x, d, y);
    lemma_text_known(s, t);
    assert forall|i: int| 0 <= i < m.args.len() implies type_tag(#[trigger] m.args[i]) == type_tag(
        n.args[i],
    ) by {
        assert(s[i + 1] == t[i + 1]);
        assert(type_tag(n.args[i]) == t[i + 1]);
    }
    lemma_args_known(m.args, n.args);
}

} // verus!
