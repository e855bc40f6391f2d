# filepressor

The verified core of a desktop tool that compresses files, folders and
archives (zip, 7z, tar.gz, tar.zst, or H.265 / AVIF through ffmpeg) and
extracts zip, 7z, rar, tar and single-stream gzip / bzip2 / xz / zstd files.

- `src/` is the library, verified with Verus: archive format detection by
  name and by magic number, a model of `/`-separated paths (file name, stem,
  extension, join, parent) read by the platform's rules (on Windows `\`
  separates too and a drive prefix may lead), the safe form of archive entry
  paths, naming
  and ordering of the entries of a new archive, the choice of output format
  and level, the ffmpeg command line and the layout of transcoded outputs,
  parsing of ffmpeg progress lines and of launch arguments, the format
  suggestion, and the decisions that pace a running task (cancel, pause,
  progress reports).
- `tests/` runs the library on concrete values.
- `app/` is the unverified shell around it: file system walks, the archive
  codecs, the ffmpeg processes, background threads and the commands that the
  user interface calls.
