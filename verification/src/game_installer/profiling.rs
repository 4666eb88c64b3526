//! Where the time of an installation goes: counters for the phases of downloads
//! and of assembly. Times are in nanoseconds, and counters go round at the end of
//! their range.

use vstd::prelude::*;

verus! {

/// `x + y`, counted in 64 bits.
pub open spec fn added(x: u64, y: u64) -> u64 {
    ((x + y) % 0x1_0000_0000_0000_0000) as u64
}

/// The counters. Only with `detailed` are downloads and idle times counted.
#[derive(Debug, Clone, Copy, PartialEq, Eq, Structural)]
pub struct PipelineProfiler {
    pub detailed: bool,
    pub start: u64,
    pub window_bytes: u64,
    pub window_chunks: u64,
    pub window_start: u64,
    pub download_ns: u64,
    pub download_count: u64,
    pub verify_ns: u64,
    pub verify_count: u64,
    pub post_download_ns: u64,
    pub post_download_count: u64,
    pub active_downloads: u64,
    pub peak_active_downloads: u64,
    pub idle_ns: u64,
    pub window_idle_ns: u64,
    pub assembly_decompress_ns: u64,
    pub assembly_decompress_count: u64,
    pub assembly_write_ns: u64,
    pub assembly_write_count: u64,
    pub assembly_total_ns: u64,
    pub assembly_total_count: u64,
    pub total_bytes_downloaded: u64,
    pub report_count: u64,
    pub total_chunks: u64,
}

/// What a report shows of the time since the one before it.
#[derive(Debug, Clone, Copy, PartialEq, Eq, Structural)]
pub struct ProfileWindow {
    pub number: u64,
    pub elapsed: u64,
    pub window_elapsed: u64,
    pub window_bytes: u64,
    pub window_idle: u64,
    pub remaining: u64,
}

impl PipelineProfiler {
    /// The counters once a download has begun.
    pub open spec fn entered(self) -> PipelineProfiler {
        if self.detailed {
            let active = added(self.active_downloads, 1);
            PipelineProfiler {
                active_downloads: active,
                peak_active_downloads: if active > self.peak_active_downloads {
                    active
                } else {
                    self.peak_active_downloads
                },
                ..self
            }
        } else {
            self
        }
    }

    /// The counters once a download has ended.
    pub open spec fn left(self) -> PipelineProfiler {
        if self.detailed {
            PipelineProfiler {
                active_downloads: if self.active_downloads > 0 {
                    (self.active_downloads - 1) as u64
                } else {
                    u64::MAX
                },
                ..self
            }
        } else {
            self
        }
    }

    /// The counters once a phase has taken `ns`.
    pub open spec fn after_phase(self, phase: ChunkPhase, ns: u64) -> PipelineProfiler {
        if !self.detailed {
            self
        } else {
            match phase {
                ChunkPhase::Verify => PipelineProfiler {
                    verify_ns: added(self.verify_ns, ns),
                    verify_count: added(self.verify_count, 1),
                    ..self
                },
                ChunkPhase::Download => PipelineProfiler {
                    download_ns: added(self.download_ns, ns),
                    download_count: added(self.download_count, 1),
                    ..self
                },
                ChunkPhase::PostDownload => PipelineProfiler {
                    post_download_ns: added(self.post_download_ns, ns),
                    post_download_count: added(self.post_download_count, 1),
                    ..self
                },
            }
        }
    }

    /// The counters once a chunk is dealt with.
    pub open spec fn after_chunk(self, size: u64, downloaded: bool) -> PipelineProfiler {
        let s = self.left();
        if !s.detailed {
            s
        } else if downloaded {
            PipelineProfiler {
                window_bytes: added(s.window_bytes, size),
                total_bytes_downloaded: added(s.total_bytes_downloaded, size),
                window_chunks: added(s.window_chunks, 1),
                ..s
            }
        } else {
            PipelineProfiler { window_chunks: added(s.window_chunks, 1), ..s }
        }
    }

    /// The counters once a report was asked for at `now`, and what it shows.
    pub open spec fn reported(self, now: u64) -> (PipelineProfiler, Option<ProfileWindow>) {
        let elapsed = if now >= self.start {
            (now - self.start) as u64
        } else {
            0
        };
        let counted = PipelineProfiler { report_count: added(self.report_count, 1), ..self };
        if !self.detailed {
            (self, None)
        } else if elapsed < 1_000_000_000 || self.download_count == 0 {
            (counted, None)
        } else {
            (
                PipelineProfiler {
                    window_start: now,
                    window_bytes: 0,
                    window_chunks: 0,
                    window_idle_ns: 0,
                    ..counted
                },
                Some(
                    ProfileWindow {
                        number: counted.report_count,
                        elapsed,
                        window_elapsed: if now >= self.window_start {
                            (now - self.window_start) as u64
                        } else {
                            0
                        },
                        window_bytes: self.window_bytes,
                        window_idle: self.window_idle_ns,
                        remaining: if self.total_chunks >= self.download_count {
                            (self.total_chunks - self.download_count) as u64
                        } else {
                            0
                        },
                    },
                ),
            )
        }
    }

    /// Counters at zero, at the time `now`.
    pub fn new(detailed: bool, now: u64) -> (r: Self)
        ensures
            r == (PipelineProfiler {
                detailed,
                start: now,
                window_bytes: 0,
                window_chunks: 0,
                window_start: now,
                download_ns: 0,
                download_count: 0,
                verify_ns: 0,
                verify_count: 0,
                post_download_ns: 0,
                post_download_count: 0,
                active_downloads: 0,
                peak_active_downloads: 0,
                idle_ns: 0,
                window_idle_ns: 0,
                assembly_decompress_ns: 0,
                assembly_decompress_count: 0,
                assembly_write_ns: 0,
                assembly_write_count: 0,
                assembly_total_ns: 0,
                assembly_total_count: 0,
                total_bytes_downloaded: 0,
                report_count: 0,
                total_chunks: 0,
            }),
    {
        PipelineProfiler {
            detailed,
            start: now,
            window_bytes: 0,
            window_chunks: 0,
            window_start: now,
            download_ns: 0,
            download_count: 0,
            verify_ns: 0,
            verify_count: 0,
            post_download_ns: 0,
            post_download_count: 0,
            active_downloads: 0,
            peak_active_downloads: 0,
            idle_ns: 0,
            window_idle_ns: 0,
            assembly_decompress_ns: 0,
            assembly_decompress_count: 0,
            assembly_write_ns: 0,
            assembly_write_count: 0,
            assembly_total_ns: 0,
            assembly_total_count: 0,
            total_bytes_downloaded: 0,
            report_count: 0,
            total_chunks: 0,
        }
    }

    /// Counts a download that has begun.
    pub fn download_enter(&mut self)
        ensures
            *final(self) == old(self).entered(),
    {
        if self.detailed {
            self.active_downloads = self.active_downloads.wrapping_add(1);
            if self.active_downloads > self.peak_active_downloads {
                self.peak_active_downloads = self.active_downloads;
            }
        }
    }

    /// Counts a download that has ended.
    pub fn download_exit(&mut self)
        ensures
            *final(self) == old(self).left(),
    {
        if self.detailed {
            self.active_downloads = self.active_downloads.wrapping_sub(1);
        }
    }

    /// Counts the time that a worker was idle.
    pub fn record_idle(&mut self, ns: u64)
        ensures
            *final(self) == if old(self).detailed {
                PipelineProfiler {
                    idle_ns: added(old(self).idle_ns, ns),
                    window_idle_ns: added(old(self).window_idle_ns, ns),
                    ..*old(self)
                }
            } else {
                *old(self)
            },
    {
        if self.detailed {
            self.idle_ns = self.idle_ns.wrapping_add(ns);
            self.window_idle_ns = self.window_idle_ns.wrapping_add(ns);
        }
    }

    /// Begins a new window, and gives what the last one has come to. Nothing is
    /// reported in the first second, nor before the first download.
    pub fn report(&mut self, now: u64) -> (r: Option<ProfileWindow>)
        ensures
            (*final(self), r) == old(self).reported(now),
    {
        if !self.detailed {
            return None;
        }
        self.report_count = self.report_count.wrapping_add(1);
        let elapsed: u64 = now.saturating_sub(self.start);
        if elapsed < 1_000_000_000 || self.download_count == 0 {
            return None;
        }
        let out = ProfileWindow {
            number: self.report_count,
            elapsed,
            window_elapsed: now.saturating_sub(self.window_start),
            window_bytes: self.window_bytes,
            window_idle: self.window_idle_ns,
            remaining: self.total_chunks.saturating_sub(self.download_count),
        };
        self.window_start = now;
        self.window_bytes = 0;
        self.window_chunks = 0;
        self.window_idle_ns = 0;
        Some(out)
    }
}

/// A phase of the way of a chunk.
#[derive(Debug, Clone, Copy, PartialEq, Eq, Structural)]
pub enum ChunkPhase {
    Verify,
    Download,
    PostDownload,
}

/// Times the phases of one chunk.
#[derive(Debug)]
pub struct ChunkTimer {
    pub phase_start: u64,
}

impl ChunkTimer {
    /// Starts to time a chunk at `now`.
    pub fn new(profiler: &mut PipelineProfiler, now: u64) -> (r: Self)
        ensures
            *final(profiler) == old(profiler).entered(),
            r.phase_start == now,
    {
        profiler.download_enter();
        ChunkTimer { phase_start: now }
    }

    /// Counts the phase that ends at `now`. Without details, phases are not timed.
    pub fn record_phase(&mut self, profiler: &mut PipelineProfiler, phase: ChunkPhase, now: u64)
        ensures
            ({
                let ns = if now >= old(self).phase_start {
                    (now - old(self).phase_start) as u64
                } else {
                    0
                };
                *final(profiler) == old(profiler).after_phase(phase, ns)
            }),
            final(self).phase_start == if old(profiler).detailed {
                now
            } else {
                old(self).phase_start
            },
    {
        if !profiler.detailed {
            return;
        }
        let ns: u64 = now.saturating_sub(self.phase_start);
        let p: PipelineProfiler = *profiler;
        *profiler = match phase {
            ChunkPhase::Verify => PipelineProfiler {
                verify_ns: p.verify_ns.wrapping_add(ns),
                verify_count: p.verify_count.wrapping_add(1),
                ..p
            },
            ChunkPhase::Download => PipelineProfiler {
                download_ns: p.download_ns.wrapping_add(ns),
                download_count: p.download_count.wrapping_add(1),
                ..p
            },
            ChunkPhase::PostDownload => PipelineProfiler {
                post_download_ns: p.post_download_ns.wrapping_add(ns),
                post_download_count: p.post_download_count.wrapping_add(1),
                ..p
            },
        };
        self.phase_start = now;
    }

    /// Counts the chunk.
    pub fn finish(self, profiler: &mut PipelineProfiler, chunk_size: u64, was_downloaded: bool)
        ensures
            *final(profiler) == old(profiler).after_chunk(chunk_size, was_downloaded),
    {
        profiler.download_exit();
        if profiler.detailed {
            if was_downloaded {
                profiler.window_bytes = profiler.window_bytes.wrapping_add(chunk_size);
                profiler.total_bytes_downloaded = profiler.total_bytes_downloaded.wrapping_add(
                    chunk_size,
                );
            }
            profiler.window_chunks = profiler.window_chunks.wrapping_add(1);
        }
    }
}

/// Times the assembly of one file.
#[derive(Debug)]
pub struct AssemblyTimer {
    pub start: u64,
}

impl AssemblyTimer {
    /// Starts to time a file at `now`.
    pub fn new(now: u64) -> (r: Self)
        ensures
            r.start == now,
    {
        AssemblyTimer { start: now }
    }

    /// Counts time that went into decompression.
    pub fn record_decompress_time(&self, profiler: &mut PipelineProfiler, ns: u64)
        ensures
            *final(profiler) == (PipelineProfiler {
                assembly_decompress_ns: added(old(profiler).assembly_decompress_ns, ns),
                assembly_decompress_count: added(old(profiler).assembly_decompress_count, 1),
                ..*old(profiler)
            }),
    {
        profiler.assembly_decompress_ns = profiler.assembly_decompress_ns.wrapping_add(ns);
        profiler.assembly_decompress_count = profiler.assembly_decompress_count.wrapping_add(1);
    }

    /// Counts time that went into writing.
    pub fn record_write_time(&self, profiler: &mut PipelineProfiler, ns: u64)
        ensures
            *final(profiler) == (PipelineProfiler {
                assembly_write_ns: added(old(profiler).assembly_write_ns, ns),
                assembly_write_count: added(old(profiler).assembly_write_count, 1),
                ..*old(profiler)
            }),
    {
        profiler.assembly_write_ns = profiler.assembly_write_ns.wrapping_add(ns);
        profiler.assembly_write_count = profiler.assembly_write_count.wrapping_add(1);
    }

    /// Counts the file, whose assembly ends at `now`.
    pub fn finish(self, profiler: &mut PipelineProfiler, now: u64)
        ensures
            *final(profiler) == if old(profiler).detailed {
                PipelineProfiler {
                    assembly_total_ns: added(
                        old(profiler).assembly_total_ns,
                        if now >= self.start {
                            (now - self.start) as u64
                        } else {
                            0
                        },
                    ),
                    assembly_total_count: added(old(profiler).assembly_total_count, 1),
                    ..*old(profiler)
                }
            } else {
                *old(profiler)
            },
    {
        if profiler.detailed {
            let ns: u64 = now.saturating_sub(self.start);
            profiler.assembly_total_ns = profiler.assembly_total_ns.wrapping_add(ns);
            profiler.assembly_total_count = profiler.assembly_total_count.wrapping_add(1);
        }
    }
}

/// A chunk that has come and gone leaves no active download, and the peak holds
/// every number of active downloads that there was.
pub proof fn law_downloads_are_counted_out(p: PipelineProfiler, size: u64, downloaded: bool)
    requires
        p.active_downloads < u64::MAX,
    ensures
        p.entered().after_chunk(size, downloaded).active_downloads == p.active_downloads,
        p.detailed ==> p.entered().peak_active_downloads >= p.entered().active_downloads,
        p.entered().peak_active_downloads >= p.peak_active_downloads,
{
}

/// With details, a phase adds its time and one count to its own counters, and to
/// no others; without, it adds nothing.
pub proof fn law_phases_are_timed_apart(p: PipelineProfiler, phase: ChunkPhase, ns: u64)
    requires
        p.verify_ns + ns <= u64::MAX && p.verify_count < u64::MAX,
        p.download_ns + ns <= u64::MAX && p.download_count < u64::MAX,
        p.post_download_ns + ns <= u64::MAX && p.post_download_count < u64::MAX,
    ensures
        ({
            let q = p.after_phase(phase, ns);
            let hit = |x: ChunkPhase| p.detailed && phase == x;
            &&& q.verify_ns - p.verify_ns == if hit(ChunkPhase::Verify) { ns as int } else { 0 }
            &&& q.verify_count - p.verify_count == if hit(ChunkPhase::Verify) { 1int } else { 0 }
            &&& q.download_ns - p.download_ns == if hit(ChunkPhase::Download) { ns as int } else { 0 }
            &&& q.download_count - p.download_count == if hit(ChunkPhase::Download) { 1int } else { 0 }
            &&& q.post_download_ns - p.post_download_ns == if hit(ChunkPhase::PostDownload) {
                ns as int
            } else {
                0
            }
            &&& q.post_download_count - p.post_download_count == if hit(ChunkPhase::PostDownload) {
                1int
            } else {
                0
            }
            &&& q.active_downloads == p.active_downloads
            &&& q.total_bytes_downloaded == p.total_bytes_downloaded
        }),
{
}

/// With details, every chunk is counted, and its bytes where it was downloaded;
/// without, nothing is counted.
pub proof fn law_only_downloads_count_bytes(p: PipelineProfiler, size: u64, downloaded: bool)
    requires
        p.window_bytes + size <= u64::MAX,
        p.total_bytes_downloaded + size <= u64::MAX,
        p.window_chunks < u64::MAX,
    ensures
        ({
            let q = p.after_chunk(size, downloaded);
            &&& q.total_bytes_downloaded - p.total_bytes_downloaded == if p.detailed && downloaded {
                size as int
            } else {
                0
            }
            &&& q.window_bytes - p.window_bytes == q.total_bytes_downloaded
                - p.total_bytes_downloaded
            &&& q.window_chunks - p.window_chunks == if p.detailed { 1int } else { 0 }
            &&& !p.detailed ==> q == p
            &&& q.peak_active_downloads == p.peak_active_downloads
        }),
{
}

/// A report shows what has come since the one before it, and begins a new window:
/// what is shown and what is left in the window are what was in it, so that no byte
/// is shown twice or lost. The counters of the whole installation stay.
pub proof fn law_reports_begin_new_windows(p: PipelineProfiler, now: u64)
    ensures
        ({
            let (q, r) = p.reported(now);
            let shown = if r is Some {
                r->0.window_bytes as int
            } else {
                0
            };
            let idle = if r is Some {
                r->0.window_idle as int
            } else {
                0
            };
            &&& shown + q.window_bytes == p.window_bytes
            &&& idle + q.window_idle_ns == p.window_idle_ns
            &&& r is Some ==> q.window_bytes == 0 && q.window_chunks == 0 && q.window_start == now
            &&& r is None ==> q.window_chunks == p.window_chunks && q.window_start == p.window_start
            &&& q.total_bytes_downloaded == p.total_bytes_downloaded
            &&& q.download_count == p.download_count && q.active_downloads == p.active_downloads
            &&& q.start == p.start && q.idle_ns == p.idle_ns
            &&& q.total_chunks == p.total_chunks
        }),
{
}

/// A report comes exactly with details, a second or more after the start, and once
/// something was downloaded; it is numbered by the reports that were asked for, and
/// tells the times since the start and since the last one, and how many chunks are
/// to come.
pub proof fn law_reports_come_in_time(p: PipelineProfiler, now: u64)
    requires
        p.start <= p.window_start <= now,
        p.report_count < u64::MAX,
        p.download_count <= p.total_chunks,
    ensures
        ({
            let (q, r) = p.reported(now);
            &&& r is Some <==> p.detailed && now >= p.start + 1_000_000_000 && p.download_count > 0
            &&& p.detailed ==> q.report_count == p.report_count + 1
            &&& r matches Some(w) ==> w.number == q.report_count && p.start + w.elapsed == now
                && p.window_start + w.window_elapsed == now && p.download_count + w.remaining
                == p.total_chunks
        }),
{
}

} // verus!
