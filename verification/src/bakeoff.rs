//! Comparison of JPEG encoders on synthetic photos.

use vstd::prelude::*;

use crate::text::same_text;

pub mod encode;
pub mod fixtures;
pub mod measure;
pub mod pictures;
pub mod sampling;

verus! {

/// Qualities that encoders are compared at.
pub const QUALITIES: [u8; 4] = [80, 90, 97, 100];

/// An encoder under comparison. A thread count of zero stands for all threads.
#[derive(Clone, Copy, Debug, Eq, PartialEq, Structural)]
pub enum Codec {
    JpegEncoder,
    JpegRusturbo { threads: u32 },
    JpegRusturboRows { threads: u32 },
    LibjpegTurboRs,
    LibjpegTurboC,
}

/// The name of an encoder.
pub open spec fn codec_name(codec: Codec) -> &'static str {
    match codec {
        Codec::JpegEncoder => "jpeg-encoder",
        Codec::JpegRusturbo { threads } => if threads == 1 {
            "jpeg-rusturbo-t1"
        } else if threads == 2 {
            "jpeg-rusturbo-t2"
        } else if threads == 4 {
            "jpeg-rusturbo-t4"
        } else if threads == 8 {
            "jpeg-rusturbo-t8"
        } else if threads == 0 {
            "jpeg-rusturbo-auto"
        } else {
            "jpeg-rusturbo-custom"
        },
        Codec::JpegRusturboRows { threads } => if threads == 1 {
            "jpeg-rusturbo-rows-t1"
        } else if threads == 2 {
            "jpeg-rusturbo-rows-t2"
        } else if threads == 4 {
            "jpeg-rusturbo-rows-t4"
        } else if threads == 8 {
            "jpeg-rusturbo-rows-t8"
        } else if threads == 0 {
            "jpeg-rusturbo-rows-auto"
        } else {
            "jpeg-rusturbo-rows-custom"
        },
        Codec::LibjpegTurboRs => "libjpeg-turbo-rs",
        Codec::LibjpegTurboC => "libjpeg-turbo-c",
    }
}

/// All encoders, in the order they are compared.
pub open spec fn all_codecs() -> Seq<Codec> {
    seq![
        Codec::JpegEncoder,
        Codec::JpegRusturbo { threads: 1 },
        Codec::JpegRusturbo { threads: 2 },
        Codec::JpegRusturbo { threads: 4 },
        Codec::JpegRusturbo { threads: 8 },
        Codec::JpegRusturbo { threads: 0 },
        Codec::JpegRusturboRows { threads: 1 },
        Codec::JpegRusturboRows { threads: 2 },
        Codec::JpegRusturboRows { threads: 4 },
        Codec::JpegRusturboRows { threads: 8 },
        Codec::JpegRusturboRows { threads: 0 },
        Codec::LibjpegTurboRs,
        Codec::LibjpegTurboC,
    ]
}

impl Codec {
    /// All encoders, in the order they are compared.
    pub fn all() -> (codecs: Vec<Codec>)
        ensures
            codecs@ == all_codecs(),
    {
        let codecs = vec![
            Codec::JpegEncoder,
            Codec::JpegRusturbo { threads: 1 },
            Codec::JpegRusturbo { threads: 2 },
            Codec::JpegRusturbo { threads: 4 },
            Codec::JpegRusturbo { threads: 8 },
            Codec::JpegRusturbo { threads: 0 },
            Codec::JpegRusturboRows { threads: 1 },
            Codec::JpegRusturboRows { threads: 2 },
            Codec::JpegRusturboRows { threads: 4 },
            Codec::JpegRusturboRows { threads: 8 },
            Codec::JpegRusturboRows { threads: 0 },
            Codec::LibjpegTurboRs,
            Codec::LibjpegTurboC,
        ];
        assert(codecs@ =~= all_codecs());
        codecs
    }

    /// The name of the encoder.
    pub fn name(self) -> (name: &'static str)
        ensures
            name == codec_name(self),
    {
        match self {
            Codec::JpegEncoder => "jpeg-encoder",
            Codec::JpegRusturbo { threads } => match threads {
                1 => "jpeg-rusturbo-t1",
                2 => "jpeg-rusturbo-t2",
                4 => "jpeg-rusturbo-t4",
                8 => "jpeg-rusturbo-t8",
                0 => "jpeg-rusturbo-auto",
                _ => "jpeg-rusturbo-custom",
            },
            Codec::JpegRusturboRows { threads } => match threads {
                1 => "jpeg-rusturbo-rows-t1",
                2 => "jpeg-rusturbo-rows-t2",
                4 => "jpeg-rusturbo-rows-t4",
                8 => "jpeg-rusturbo-rows-t8",
                0 => "jpeg-rusturbo-rows-auto",
                _ => "jpeg-rusturbo-rows-custom",
            },
            Codec::LibjpegTurboRs => "libjpeg-turbo-rs",
            Codec::LibjpegTurboC => "libjpeg-turbo-c",
        }
    }
}

/// The first of some encoders with a name.
pub open spec fn codec_named(codecs: Seq<Codec>, name: Seq<char>) -> Option<Codec>
    decreases codecs.len(),
{
    if codecs.len() == 0 {
        None
    } else if codec_name(codecs[0])@ == name {
        Some(codecs[0])
    } else {
        codec_named(codecs.drop_first(), name)
    }
}

/// The encoder with a name. The C encoder also goes by the name under which it
/// is kept from one image to the next.
pub fn parse_codec(name: &str) -> (codec: Option<Codec>)
    ensures
        codec == if name@ == "libjpeg-turbo-c-reused"@ {
            Some(Codec::LibjpegTurboC)
        } else {
            codec_named(all_codecs(), name@)
        },
{
    if same_text(name, "libjpeg-turbo-c-reused") {
        return Some(Codec::LibjpegTurboC);
    }
    let codecs = Codec::all();
    let ghost all = all_codecs();
    let mut i: usize = 0;
    proof {
        assert(all.skip(0) =~= all);
    }
    while i < codecs.len()
        invariant
            i <= codecs@.len(),
            codecs@ == all,
            all == all_codecs(),
            name@ != "libjpeg-turbo-c-reused"@,
            codec_named(all, name@) == codec_named(all.skip(i as int), name@),
        decreases codecs@.len() - i,
    {
        assert(all.skip(i as int)[0] == codecs@[i as int]);
        if same_text(codecs[i].name(), name) {
            return Some(codecs[i]);
        }
        assert(all.skip(i as int).drop_first() =~= all.skip(i + 1));
        i += 1;
    }
    None
}

/// The names of some encoders, each followed by a separator.
pub open spec fn listed_names(codecs: Seq<Codec>) -> Seq<char>
    decreases codecs.len(),
{
    if codecs.len() == 0 {
        seq![]
    } else {
        listed_names(codecs.drop_last()) + codec_name(codecs.last())@ + ", "@
    }
}

/// The names that [`parse_codec`] knows.
pub fn codec_names() -> (names: String)
    ensures
        names@ == listed_names(all_codecs()) + "libjpeg-turbo-c-reused"@,
{
    let codecs = Codec::all();
    let mut names = String::new();
    let mut i: usize = 0;
    proof {
        assert(codecs@.take(0) =~= seq![]);
        assert(names@ =~= listed_names(codecs@.take(0)));
    }
    while i < codecs.len()
        invariant
            i <= codecs@.len(),
            names@ == listed_names(codecs@.take(i as int)),
        decreases codecs@.len() - i,
    {
        proof {
            assert(codecs@.take(i + 1).drop_last() =~= codecs@.take(i as int));
        }
        names.append(codecs[i].name());
        names.append(", ");
        i += 1;
    }
    assert(codecs@.take(i as int) =~= codecs@);
    names.append("libjpeg-turbo-c-reused");
    names
}

/// Chroma sampling of a JPEG.
#[derive(Clone, Copy, Debug, Eq, PartialEq, Structural)]
pub enum Sampling {
    S444,
    Other,
}

/// The name of a sampling.
pub open spec fn sampling_name(sampling: Sampling) -> &'static str {
    match sampling {
        Sampling::S444 => "4:4:4",
        Sampling::Other => "other",
    }
}

impl Sampling {
    /// The name of the sampling.
    pub fn name(self) -> (name: &'static str)
        ensures
            name == sampling_name(self),
    {
        match self {
            Sampling::S444 => "4:4:4",
            Sampling::Other => "other",
        }
    }
}

proof fn lemma_first_named(codecs: Seq<Codec>, name: Seq<char>, i: int)
    requires
        0 <= i < codecs.len(),
        codec_name(codecs[i])@ == name,
        forall|j: int| 0 <= j < i ==> codec_name(#[trigger] codecs[j])@ != name,
    ensures
        codec_named(codecs, name) == Some(codecs[i]),
    decreases codecs.len(),
{
    if i > 0 {
        let rest = codecs.drop_first();
        assert(codec_name(codecs[0])@ != name);
        assert forall|j: int| 0 <= j < i - 1 implies codec_name(#[trigger] rest[j])@ != name by {
            assert(rest[j] == codecs[j + 1]);
        }
        lemma_first_named(rest, name, i - 1);
    }
}

/// Every encoder under comparison is found by its own name, and the C encoder by the
/// name under which it is kept.
pub proof fn law_encoders_are_found_by_their_name(
    codecs: Vec<Codec>,
    i: int,
    name: &'static str,
    given: &str,
    found: Option<Codec>,
    kept: &str,
    reused: Option<Codec>,
)
    requires
        call_ensures(Codec::all, (), codecs),
        0 <= i < codecs@.len(),
        call_ensures(Codec::name, (codecs@[i],), name),
        given@ == name@,
        call_ensures(parse_codec, (given,), found),
        kept@ == "libjpeg-turbo-c-reused"@,
        call_ensures(parse_codec, (kept,), reused),
    ensures
        codecs@.len() == 13,
        found == Some(codecs@[i]),
        reused == Some(Codec::LibjpegTurboC),
{
    let all = all_codecs();
    reveal_strlit("jpeg-encoder");
    reveal_strlit("jpeg-rusturbo-t1");
    reveal_strlit("jpeg-rusturbo-t2");
    reveal_strlit("jpeg-rusturbo-t4");
    reveal_strlit("jpeg-rusturbo-t8");
    reveal_strlit("jpeg-rusturbo-auto");
    reveal_strlit("jpeg-rusturbo-rows-t1");
    reveal_strlit("jpeg-rusturbo-rows-t2");
    reveal_strlit("jpeg-rusturbo-rows-t4");
    reveal_strlit("jpeg-rusturbo-rows-t8");
    reveal_strlit("jpeg-rusturbo-rows-auto");
    reveal_strlit("libjpeg-turbo-rs");
    reveal_strlit("libjpeg-turbo-c");
    reveal_strlit("libjpeg-turbo-c-reused");
    assert(given@ != "libjpeg-turbo-c-reused"@) by {
        assert(given@.len() != 22);
    }
    assert forall|j: int| 0 <= j < i implies codec_name(#[trigger] all[j])@ != given@ by {
        lemma_names_differ(j, i);
    }
    lemma_first_named(all, given@, i);
}

proof fn lemma_names_differ(i: int, j: int)
    requires
        0 <= i < j < 13,
    ensures
        codec_name(all_codecs()[i])@ != codec_name(all_codecs()[j])@,
{
    reveal_strlit("jpeg-encoder");
    reveal_strlit("jpeg-rusturbo-t1");
    reveal_strlit("jpeg-rusturbo-t2");
    reveal_strlit("jpeg-rusturbo-t4");
    reveal_strlit("jpeg-rusturbo-t8");
    reveal_strlit("jpeg-rusturbo-auto");
    reveal_strlit("jpeg-rusturbo-rows-t1");
    reveal_strlit("jpeg-rusturbo-rows-t2");
    reveal_strlit("jpeg-rusturbo-rows-t4");
    reveal_strlit("jpeg-rusturbo-rows-t8");
    reveal_strlit("jpeg-rusturbo-rows-auto");
    reveal_strlit("libjpeg-turbo-rs");
    reveal_strlit("libjpeg-turbo-c");
    let a = codec_name(all_codecs()[i])@;
    let b = codec_name(all_codecs()[j])@;
    if a.len() == b.len() && a.len() > 12 {
        assert(a[a.len() - 1] != b[b.len() - 1] || a[0] != b[0]);
    }
}

} // verus!
