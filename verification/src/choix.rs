use vstd::prelude::*;
use crate::image::{PixelBuffer, lemma_nb_pixels};
use vstd::arithmetic::mul::lemma_mul_inequality;

verus! {

/// The extensions under which a decoded image is saved as it is named.
pub open spec fn format_accepte(extension: Seq<char>) -> bool {
    ||| extension == "jpeg"@
    ||| extension == "jpg"@
    ||| extension == "png"@
    ||| extension == "tiff"@
    ||| extension == "ico"@
    ||| extension == "bmp"@
}

/// The format in which a decoded image is saved: the extension of the chosen
/// file where it names a known format, PNG otherwise.
pub fn type_image(extension: Option<String>) -> (r: String)
    ensures
        r@ == (match extension {
            Some(e) => if format_accepte(e@) {
                e@
            } else {
                "png"@
            },
            None => "png"@,
        }),
        extension matches Some(e) ==> ((e@ == "jpeg"@ || e@ == "jpg"@ || e@ == "png"@ || e@
            == "tiff"@ || e@ == "ico"@ || e@ == "bmp"@) ==> r@ == e@),
        extension matches Some(e) ==> (!(e@ == "jpeg"@ || e@ == "jpg"@ || e@ == "png"@ || e@
            == "tiff"@ || e@ == "ico"@ || e@ == "bmp"@) ==> r@ == "png"@),
        extension is None ==> r@ == "png"@,
{
    match extension {
        Some(e) => {
            let formats = ["jpeg", "jpg", "png", "tiff", "ico", "bmp"];
            let mut i: usize = 0;
            while i < 6
                invariant
                    0 <= i <= 6,
                    formats@ == seq!["jpeg", "jpg", "png", "tiff", "ico", "bmp"],
                    forall|j: int| 0 <= j < i ==> formats@[j]@ != e@,
                    extension == Some(e),
                decreases 6 - i,
            {
                let candidat = formats[i].to_owned();
                if e == candidat {
                    proof {
                        assert(e@ == formats@[i as int]@);
                        if i == 0 {
                            assert(formats@[0] == "jpeg");
                        } else if i == 1 {
                            assert(formats@[1] == "jpg");
                        } else if i == 2 {
                            assert(formats@[2] == "png");
                        } else if i == 3 {
                            assert(formats@[3] == "tiff");
                        } else if i == 4 {
                            assert(formats@[4] == "ico");
                        } else {
                            assert(formats@[5] == "bmp");
                        }
                        assert(format_accepte(e@));
                    }
                    return e;
                }
                i += 1;
            }
            "png".to_owned()
        },
        None => "png".to_owned(),
    }
}

/// What the file dialog does after the user closed it without a file.
pub enum Decision {
    /// Show the dialog again.
    Reessayer,
    /// Give up on the file.
    Abandonner,
}

/// The answer to "try again?": the first button (also where the question
/// could not be asked) shows the dialog again, the second gives up.
pub fn decision_reessai(reponse: Option<i32>) -> (r: Decision)
    requires
        reponse matches Some(n) ==> n == 0 || n == 1,
    ensures
        r == (match reponse {
            Some(1) => Decision::Abandonner,
            _ => Decision::Reessayer,
        }),
{
    match reponse {
        Some(1) => Decision::Abandonner,
        _ => Decision::Reessayer,
    }
}

/// Whether the window warns that the hidden image is likely too large for
/// the host: its pixels, plus two, outnumber those of the host.
pub fn avertir_taille(image_invite: &PixelBuffer, image_hote: &PixelBuffer) -> (r: bool)
    requires
        image_invite@.wf(),
        image_hote@.wf(),
    ensures
        r == (image_invite@.width * image_invite@.height + 2 > image_hote@.height
            * image_hote@.width),
{
    proof {
        lemma_nb_pixels(image_invite@);
        lemma_nb_pixels(image_hote@);
        lemma_mul_inequality(1, image_invite@.n_channels as int, image_invite@.width as int);
        lemma_mul_inequality(1, image_hote@.n_channels as int, image_hote@.width as int);
        assert(image_hote@.height * image_hote@.width == image_hote@.width * image_hote@.height)
            by (nonlinear_arith);
    }
    image_invite.width() * image_invite.height() + 2 > image_hote.height() * image_hote.width()
}

} // verus!
