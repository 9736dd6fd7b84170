//! Preferences of the file layer: frame options, overwrite and pass-through
//! policy, and the block size, kept with its size identifier.

use vstd::prelude::*;

pub use crate::frame::types::BlockMode;

verus! {

/// Block size identifier used unless one is chosen (7: 4 MiB blocks).
pub const LZ4IO_BLOCKSIZEID_DEFAULT: u32 = 7;

/// Smallest block size that can be chosen by size.
pub const MIN_BLOCK_SIZE: usize = 32;

/// Largest block size (4 MiB).
pub const MAX_BLOCK_SIZE: usize = 4194304;

/// Preferences of a compression or decompression run.
#[derive(Debug, Clone)]
pub struct Prefs {
    /// Copy input that is not a frame to the output unchanged.
    pub pass_through: bool,
    /// Overwrite existing output files without asking.
    pub overwrite: bool,
    /// Decode without writing anything.
    pub test_mode: bool,
    /// Block size identifier, 4 to 7.
    pub block_size_id: u32,
    /// Block size in bytes; 0 until one is chosen.
    pub block_size: usize,
    /// Append a checksum to each block.
    pub block_checksum: bool,
    /// Append a checksum of the content to the frame.
    pub stream_checksum: bool,
    /// Compress each block without reference to the previous ones.
    pub block_independence: bool,
    /// Sparse output files: 0 off, 1 automatic, 2 forced.
    pub sparse_file_support: i32,
    /// Record the content size in the frame header.
    pub content_size_flag: bool,
    /// Compress and decompress with a dictionary.
    pub use_dictionary: bool,
    /// Prefer decompression speed over ratio at high levels.
    pub favor_dec_speed: bool,
    /// The dictionary's file name.
    pub dictionary_filename: Option<String>,
    /// Remove the source file after success.
    pub remove_src_file: bool,
    /// Number of compression workers; 0 chooses automatically.
    pub nb_workers: usize,
}

/// The default preferences.
pub open spec fn default_prefs() -> Prefs {
    Prefs {
        pass_through: false,
        overwrite: true,
        test_mode: false,
        block_size_id: LZ4IO_BLOCKSIZEID_DEFAULT,
        block_size: 0,
        block_checksum: false,
        stream_checksum: true,
        block_independence: true,
        sparse_file_support: 1,
        content_size_flag: false,
        use_dictionary: false,
        favor_dec_speed: false,
        dictionary_filename: None,
        remove_src_file: false,
        nb_workers: 0,
    }
}

impl Default for Prefs {
    fn default() -> (p: Self)
        ensures
            p == default_prefs(),
    {
        Prefs {
            pass_through: false,
            overwrite: true,
            test_mode: false,
            block_size_id: LZ4IO_BLOCKSIZEID_DEFAULT,
            block_size: 0,
            block_checksum: false,
            stream_checksum: true,
            block_independence: true,
            sparse_file_support: 1,
            content_size_flag: false,
            use_dictionary: false,
            favor_dec_speed: false,
            dictionary_filename: None,
            remove_src_file: false,
            nb_workers: 0,
        }
    }
}

/// Size in bytes of the blocks of identifier `id` (4 to 7).
pub open spec fn block_size_of_id(id: u32) -> usize {
    if id == 4 {
        65536
    } else if id == 5 {
        262144
    } else if id == 6 {
        1048576
    } else {
        4194304
    }
}

/// How many times `n` can be divided by 4 before it reaches 0, less one.
pub open spec fn quarter_steps(n: nat) -> nat
    decreases n,
{
    if n / 4 == 0 {
        0
    } else {
        1 + quarter_steps(n / 4)
    }
}

/// A block size between the bounds.
pub open spec fn clamp_block_size(n: usize) -> usize {
    if n < MIN_BLOCK_SIZE {
        MIN_BLOCK_SIZE
    } else if n > MAX_BLOCK_SIZE {
        MAX_BLOCK_SIZE
    } else {
        n
    }
}

/// The identifier recorded for a block size chosen in bytes: the smallest
/// standard size that holds it (at least identifier 4).
pub open spec fn block_size_id_for(size: usize) -> u32 {
    let q = quarter_steps((size - 1) as nat);
    ((if q < 7 { 7 } else { q }) - 3) as u32
}

proof fn lemma_quarter_steps_le(n: nat)
    ensures
        quarter_steps(n) <= n,
    decreases n,
{
    if n / 4 != 0 {
        lemma_quarter_steps_le(n / 4);
    }
}

impl Prefs {
    /// Chooses the block size by identifier. Identifiers outside 4..=7 are
    /// refused: 0 is returned and nothing changes. Otherwise the identifier
    /// and its size are recorded and the size is returned.
    pub fn set_block_size_id(&mut self, bsid: u32) -> (r: usize)
        ensures
            4 <= bsid <= 7 ==> r == block_size_of_id(bsid) && *final(self) == (Prefs {
                block_size_id: bsid,
                block_size: block_size_of_id(bsid),
                ..*old(self)
            }),
            !(4 <= bsid <= 7) ==> r == 0 && *final(self) == *old(self),
    {
        if bsid < 4 || bsid > 7 {
            return 0;
        }
        let size: usize = if bsid == 4 {
            65536
        } else if bsid == 5 {
            262144
        } else if bsid == 6 {
            1048576
        } else {
            4194304
        };
        self.block_size_id = bsid;
        self.block_size = size;
        size
    }

    /// Chooses the block size in bytes, clamped to 32 bytes .. 4 MiB, and
    /// records the identifier of the smallest standard size that holds it.
    /// Returns the size recorded.
    pub fn set_block_size(&mut self, block_size: usize) -> (r: usize)
        ensures
            r == clamp_block_size(block_size),
            *final(self) == (Prefs {
                block_size: clamp_block_size(block_size),
                block_size_id: block_size_id_for(clamp_block_size(block_size)),
                ..*old(self)
            }),
    {
        let size: usize = if block_size < MIN_BLOCK_SIZE {
            MIN_BLOCK_SIZE
        } else if block_size > MAX_BLOCK_SIZE {
            MAX_BLOCK_SIZE
        } else {
            block_size
        };
        let mut b: usize = size - 1;
        let mut bsid: u32 = 0;
        proof { lemma_quarter_steps_le((size - 1) as nat); }
        while b / 4 != 0
            invariant
                bsid + quarter_steps(b as nat) == quarter_steps((size - 1) as nat),
                quarter_steps((size - 1) as nat) <= MAX_BLOCK_SIZE,
            decreases b,
        {
            b = b / 4;
            bsid = bsid + 1;
        }
        if bsid < 7 {
            bsid = 7;
        }
        self.block_size = size;
        self.block_size_id = bsid - 3;
        size
    }

    /// Linked blocks refer to the previous ones; independent blocks do not.
    pub fn set_block_mode(&mut self, mode: BlockMode)
        ensures
            *final(self) == (Prefs { block_independence: mode == BlockMode::Independent, ..*old(self) }),
    {
        self.block_independence = match mode {
            BlockMode::Independent => true,
            BlockMode::Linked => false,
        };
    }

    /// Sets whether each block carries a checksum.
    pub fn set_block_checksum_mode(&mut self, enable: bool)
        ensures
            *final(self) == (Prefs { block_checksum: enable, ..*old(self) }),
    {
        self.block_checksum = enable;
    }

    /// Sets whether the frame carries a checksum of its content.
    pub fn set_stream_checksum_mode(&mut self, enable: bool)
        ensures
            *final(self) == (Prefs { stream_checksum: enable, ..*old(self) }),
    {
        self.stream_checksum = enable;
    }

    /// Sets whether the frame header records the content size.
    pub fn set_content_size(&mut self, enable: bool)
        ensures
            *final(self) == (Prefs { content_size_flag: enable, ..*old(self) }),
    {
        self.content_size_flag = enable;
    }

    /// Sets whether existing output files are overwritten.
    pub fn set_overwrite(&mut self, yes: bool)
        ensures
            *final(self) == (Prefs { overwrite: yes, ..*old(self) }),
    {
        self.overwrite = yes;
    }

    /// Sets whether input that is not a frame is copied through.
    pub fn set_pass_through(&mut self, yes: bool)
        ensures
            *final(self) == (Prefs { pass_through: yes, ..*old(self) }),
    {
        self.pass_through = yes;
    }

    /// Sets whether the source file is removed after success.
    pub fn set_remove_src_file(&mut self, flag: bool)
        ensures
            *final(self) == (Prefs { remove_src_file: flag, ..*old(self) }),
    {
        self.remove_src_file = flag;
    }

    /// Sets whether decoding only is performed.
    pub fn set_test_mode(&mut self, yes: bool)
        ensures
            *final(self) == (Prefs { test_mode: yes, ..*old(self) }),
    {
        self.test_mode = yes;
    }

    /// Sets the sparse-file policy (0 off, 1 automatic, 2 forced).
    pub fn set_sparse_file(&mut self, mode: i32)
        ensures
            *final(self) == (Prefs { sparse_file_support: mode, ..*old(self) }),
    {
        self.sparse_file_support = mode;
    }

    /// Sets whether decompression speed is favoured.
    pub fn favor_dec_speed(&mut self, favor: bool)
        ensures
            *final(self) == (Prefs { favor_dec_speed: favor, ..*old(self) }),
    {
        self.favor_dec_speed = favor;
    }

    /// Sets the number of compression workers.
    pub fn set_nb_workers(&mut self, nb_workers: usize)
        ensures
            *final(self) == (Prefs { nb_workers, ..*old(self) }),
    {
        self.nb_workers = nb_workers;
    }
}

} // verus!
