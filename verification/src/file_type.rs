//! The audio formats that the library tells apart.

use vstd::prelude::*;

verus! {

/// An audio format.
#[derive(Clone, Copy, Debug, PartialEq, Eq, Hash, Structural)]
pub enum FileType {
    M4A,
    MP3,
    Wav,
    Flac,
}

/// The extension of the files of a format, in lower case.
pub open spec fn name_chars(ft: FileType) -> Seq<char> {
    match ft {
        FileType::M4A => seq!['m', '4', 'a'],
        FileType::MP3 => seq!['m', 'p', '3'],
        FileType::Wav => seq!['w', 'a', 'v'],
        FileType::Flac => seq!['f', 'l', 'a', 'c'],
    }
}

/// The name of a format as it is written in directory names, in upper case.
pub open spec fn tag_chars(ft: FileType) -> Seq<char> {
    match ft {
        FileType::M4A => seq!['M', '4', 'A'],
        FileType::MP3 => seq!['M', 'P', '3'],
        FileType::Wav => seq!['W', 'A', 'V'],
        FileType::Flac => seq!['F', 'L', 'A', 'C'],
    }
}

/// FLAC and WAV keep the audio data whole; MP3 and M4A do not.
pub open spec fn lossless(ft: FileType) -> bool {
    ft == FileType::Wav || ft == FileType::Flac
}

/// The formats in the order in which sources are preferred.
pub open spec fn preferred() -> Seq<FileType> {
    seq![FileType::Flac, FileType::Wav, FileType::MP3, FileType::M4A]
}

impl FileType {
    /// Tells whether the format keeps the audio data whole.
    pub fn is_lossless(&self) -> (r: bool)
        ensures
            r == lossless(*self),
    {
        match self {
            FileType::Wav => true,
            FileType::Flac => true,
            FileType::M4A => false,
            FileType::MP3 => false,
        }
    }

    /// The extension of the files of this format.
    pub fn name(&self) -> (r: &'static str)
        ensures
            r@ == name_chars(*self),
    {
        match self {
            FileType::M4A => {
                proof {
                    reveal_strlit("m4a");
                }
                assert("m4a"@ =~= name_chars(FileType::M4A));
                "m4a"
            },
            FileType::MP3 => {
                proof {
                    reveal_strlit("mp3");
                }
                assert("mp3"@ =~= name_chars(FileType::MP3));
                "mp3"
            },
            FileType::Wav => {
                proof {
                    reveal_strlit("wav");
                }
                assert("wav"@ =~= name_chars(FileType::Wav));
                "wav"
            },
            FileType::Flac => {
                proof {
                    reveal_strlit("flac");
                }
                assert("flac"@ =~= name_chars(FileType::Flac));
                "flac"
            },
        }
    }

    /// The name of this format as directory names carry it.
    pub fn tag(&self) -> (r: &'static str)
        ensures
            r@ == tag_chars(*self),
    {
        match self {
            FileType::M4A => {
                proof {
                    reveal_strlit("M4A");
                }
                assert("M4A"@ =~= tag_chars(FileType::M4A));
                "M4A"
            },
            FileType::MP3 => {
                proof {
                    reveal_strlit("MP3");
                }
                assert("MP3"@ =~= tag_chars(FileType::MP3));
                "MP3"
            },
            FileType::Wav => {
                proof {
                    reveal_strlit("WAV");
                }
                assert("WAV"@ =~= tag_chars(FileType::Wav));
                "WAV"
            },
            FileType::Flac => {
                proof {
                    reveal_strlit("FLAC");
                }
                assert("FLAC"@ =~= tag_chars(FileType::Flac));
                "FLAC"
            },
        }
    }

    /// The extension of this format as an owned string.
    pub fn to_string(&self) -> (r: String)
        ensures
            r@ == name_chars(*self),
    {
        self.name().to_owned()
    }

    /// The four formats, in the order of their declaration.
    pub fn value_variants() -> (r: Vec<FileType>)
        ensures
            r@ == seq![FileType::M4A, FileType::MP3, FileType::Wav, FileType::Flac],
    {
        let mut r: Vec<FileType> = Vec::new();
        r.push(FileType::M4A);
        r.push(FileType::MP3);
        r.push(FileType::Wav);
        r.push(FileType::Flac);
        assert(r@ =~= seq![FileType::M4A, FileType::MP3, FileType::Wav, FileType::Flac]);
        r
    }

    /// The four formats, in the order in which sources are preferred.
    pub fn preference_order() -> (r: Vec<FileType>)
        ensures
            r@ == preferred(),
    {
        let mut r: Vec<FileType> = Vec::new();
        r.push(FileType::Flac);
        r.push(FileType::Wav);
        r.push(FileType::MP3);
        r.push(FileType::M4A);
        assert(r@ =~= preferred());
        r
    }

    /// The format whose extension is `name`, if there is one.
    pub fn from_name(name: &Vec<char>) -> (r: Option<FileType>)
        ensures
            match r {
                Some(ft) => name@ == name_chars(ft),
                None => forall|ft: FileType| name@ != name_chars(ft),
            },
    {
        if name.len() == 3 {
            if name[0] == 'm' && name[1] == '4' && name[2] == 'a' {
                assert(name@ =~= name_chars(FileType::M4A));
                return Some(FileType::M4A);
            }
            if name[0] == 'm' && name[1] == 'p' && name[2] == '3' {
                assert(name@ =~= name_chars(FileType::MP3));
                return Some(FileType::MP3);
            }
            if name[0] == 'w' && name[1] == 'a' && name[2] == 'v' {
                assert(name@ =~= name_chars(FileType::Wav));
                return Some(FileType::Wav);
            }
        }
        if name.len() == 4 && name[0] == 'f' && name[1] == 'l' && name[2] == 'a' && name[3] == 'c' {
            assert(name@ =~= name_chars(FileType::Flac));
            return Some(FileType::Flac);
        }
        assert forall|ft: FileType| name@ != name_chars(ft) by {
            if name@ == name_chars(ft) {
                assert(name@.len() == name_chars(ft).len());
                assert(name@[0] == name_chars(ft)[0]);
                assert(name@[1] == name_chars(ft)[1]);
                assert(name@[2] == name_chars(ft)[2]);
                if ft == FileType::Flac {
                    assert(name@[3] == name_chars(ft)[3]);
                }
            }
        }
        None
    }
}

/// Two formats with the same extension are the same format.
pub proof fn lemma_names_differ(a: FileType, b: FileType)
    requires
        name_chars(a) == name_chars(b),
    ensures
        a == b,
{
    assert(name_chars(a).len() == name_chars(b).len());
    assert(name_chars(a)[1] == name_chars(b)[1]);
    assert(name_chars(a)[0] == name_chars(b)[0]);
}

} // verus!
